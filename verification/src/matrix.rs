//! Small dense matrices over `GF(2^8)` and the systematic Reed-Solomon
//! generator matrix: the identity on top of Vandermonde parity rows.
use crate::gf256::{
    gf_inv, gf_mul, gf_pow, lemma_inv_correct, lemma_mul_assoc, lemma_mul_comm,
    lemma_mul_distrib, lemma_mul_zero_one, lemma_no_zero_divisors,
};
use crate::poly::{distinct_points, horner, lemma_power_sum_horner, lemma_roots, power_sum};
use vstd::prelude::*;

verus! {

/// `x[0]*m[0][j] + ... + x[n-1]*m[n-1][j]` over `GF(2^8)`.
pub open spec fn dot_n(x: Seq<u8>, m: Seq<Seq<u8>>, j: int, n: nat) -> u8
    decreases n,
{
    if n == 0 {
        0u8
    } else {
        (dot_n(x, m, j, (n - 1) as nat) ^ gf_mul(x[n - 1], m[n - 1][j])) as u8
    }
}

/// The row vector `x` times column `j` of `m`.
pub open spec fn dot(x: Seq<u8>, m: Seq<Seq<u8>>, j: int) -> u8 {
    dot_n(x, m, j, x.len())
}

/// The matrix product `a * b`, where `b` has `cols` columns.
pub open spec fn mat_mul(a: Seq<Seq<u8>>, b: Seq<Seq<u8>>, cols: nat) -> Seq<Seq<u8>> {
    Seq::new(a.len(), |i: int| Seq::new(cols, |j: int| dot(a[i], b, j)))
}

/// The `n x n` identity.
pub open spec fn identity_model(n: nat) -> Seq<Seq<u8>> {
    Seq::new(n, |i: int| Seq::new(n, |j: int| if i == j { 1u8 } else { 0u8 }))
}

/// A `rows x cols` grid of zeros.
pub open spec fn zeros_model(rows: nat, cols: nat) -> Seq<Seq<u8>> {
    Seq::new(rows, |i: int| Seq::new(cols, |j: int| 0u8))
}

/// Every row of `m` has `cols` entries.
pub open spec fn shaped(m: Seq<Seq<u8>>, cols: nat) -> bool {
    forall|i: int| 0 <= i < m.len() ==> #[trigger] m[i].len() == cols
}

/// The rows of `m` picked by `idx`, in order.
pub open spec fn select_model(m: Seq<Seq<u8>>, idx: Seq<usize>) -> Seq<Seq<u8>> {
    Seq::new(idx.len(), |i: int| m[idx[i] as int])
}

/// Row `x` with every entry multiplied by `f`.
pub open spec fn scale_seq(x: Seq<u8>, f: u8) -> Seq<u8> {
    Seq::new(x.len(), |k: int| gf_mul(x[k], f))
}

/// Row `x` plus `f` times row `y`.
pub open spec fn add_scaled_seq(x: Seq<u8>, y: Seq<u8>, f: u8) -> Seq<u8> {
    Seq::new(x.len(), |k: int| (x[k] ^ gf_mul(y[k], f)) as u8)
}

pub proof fn lemma_index(i: int, j: int, r: int, c: int)
    requires
        0 <= i < r,
        0 <= j < c,
    ensures
        0 <= i * c + j < r * c,
        i * c + j + 1 <= r * c,
{
    assert(0 <= i * c + j < r * c) by (nonlinear_arith)
        requires
            0 <= i < r,
            0 <= j < c,
    ;
}

pub proof fn lemma_index_inj(i1: int, j1: int, i2: int, j2: int, c: int)
    requires
        0 <= i1,
        0 <= i2,
        0 <= j1 < c,
        0 <= j2 < c,
        i1 * c + j1 == i2 * c + j2,
    ensures
        i1 == i2,
        j1 == j2,
{
    assert(i1 == i2) by (nonlinear_arith)
        requires
            0 <= i1,
            0 <= i2,
            0 <= j1 < c,
            0 <= j2 < c,
            i1 * c + j1 == i2 * c + j2,
    ;
}

/// Pointwise XOR of two rows distributes over the dot product.
pub proof fn lemma_dot_n_add_scaled(x: Seq<u8>, y: Seq<u8>, f: u8, m: Seq<Seq<u8>>, j: int, n: nat)
    requires
        n <= x.len(),
        n <= y.len(),
    ensures
        dot_n(add_scaled_seq(x, y, f), m, j, n) == dot_n(x, m, j, n) ^ gf_mul(
            dot_n(y, m, j, n),
            f,
        ),
    decreases n,
{
    if n == 0 {
        lemma_mul_zero_one(f);
        assert(0u8 ^ 0u8 == 0u8) by (bit_vector);
    } else {
        let k = (n - 1) as int;
        lemma_dot_n_add_scaled(x, y, f, m, j, (n - 1) as nat);
        let a = dot_n(x, m, j, (n - 1) as nat);
        let b = dot_n(y, m, j, (n - 1) as nat);
        let xk = x[k];
        let yk = y[k];
        let mk = m[k][j];
        // (xk ^ yk*f) * mk = xk*mk ^ (yk*f)*mk = xk*mk ^ (yk*mk)*f
        lemma_mul_distrib(mk, xk, gf_mul(yk, f));
        lemma_mul_assoc(yk, f, mk);
        lemma_mul_comm(f, mk);
        lemma_mul_assoc(yk, mk, f);
        // (b ^ yk*mk) * f = b*f ^ (yk*mk)*f
        lemma_mul_distrib(f, b, gf_mul(yk, mk));
        let p = gf_mul(xk, mk);
        let q = gf_mul(gf_mul(yk, mk), f);
        let bf = gf_mul(b, f);
        assert(add_scaled_seq(x, y, f)[k] == xk ^ gf_mul(yk, f));
        assert(gf_mul(xk ^ gf_mul(yk, f), mk) == p ^ q);
        assert(gf_mul(b ^ gf_mul(yk, mk), f) == bf ^ q);
        assert((a ^ bf) ^ (p ^ q) == (a ^ p) ^ (bf ^ q)) by (bit_vector);
    }
}

/// Scaling a row scales its dot products.
pub proof fn lemma_dot_n_scale(x: Seq<u8>, f: u8, m: Seq<Seq<u8>>, j: int, n: nat)
    requires
        n <= x.len(),
    ensures
        dot_n(scale_seq(x, f), m, j, n) == gf_mul(dot_n(x, m, j, n), f),
    decreases n,
{
    if n == 0 {
        lemma_mul_zero_one(f);
    } else {
        let k = (n - 1) as int;
        lemma_dot_n_scale(x, f, m, j, (n - 1) as nat);
        let a = dot_n(x, m, j, (n - 1) as nat);
        let xk = x[k];
        let mk = m[k][j];
        lemma_mul_assoc(xk, f, mk);
        lemma_mul_comm(f, mk);
        lemma_mul_assoc(xk, mk, f);
        lemma_mul_distrib(f, a, gf_mul(xk, mk));
        assert(scale_seq(x, f)[k] == gf_mul(xk, f));
    }
}

/// The dot product only reads the first `n` entries of the row.
pub proof fn lemma_dot_n_prefix(x: Seq<u8>, y: Seq<u8>, m: Seq<Seq<u8>>, j: int, n: nat)
    requires
        n <= x.len(),
        n <= y.len(),
        forall|k: int| 0 <= k < n ==> x[k] == y[k],
    ensures
        dot_n(x, m, j, n) == dot_n(y, m, j, n),
    decreases n,
{
    if n > 0 {
        lemma_dot_n_prefix(x, y, m, j, (n - 1) as nat);
    }
}

/// Against the identity, the dot product picks out one entry.
pub proof fn lemma_dot_n_identity(x: Seq<u8>, n: nat, j: int, upto: nat)
    requires
        upto <= n,
        upto <= x.len(),
        0 <= j < n,
    ensures
        dot_n(x, identity_model(n), j, upto) == if j < upto {
            x[j]
        } else {
            0u8
        },
    decreases upto,
{
    if upto > 0 {
        let k = (upto - 1) as int;
        lemma_dot_n_identity(x, n, j, (upto - 1) as nat);
        lemma_mul_zero_one(x[k]);
        let prev = dot_n(x, identity_model(n), j, (upto - 1) as nat);
        let xk = x[k];
        assert(prev ^ 0u8 == prev) by (bit_vector);
        assert(0u8 ^ xk == xk) by (bit_vector);
    }
}

/// The first `n` terms of `x * s`, column by column.
pub open spec fn partial_row(x: Seq<u8>, s: Seq<Seq<u8>>, k: nat, n: nat) -> Seq<u8> {
    Seq::new(k, |j: int| dot_n(x, s, j, n))
}

proof fn lemma_dot_n_zero_row(x: Seq<u8>, m: Seq<Seq<u8>>, j: int, n: nat)
    requires
        n <= x.len(),
        forall|k: int| 0 <= k < x.len() ==> #[trigger] x[k] == 0u8,
    ensures
        dot_n(x, m, j, n) == 0u8,
    decreases n,
{
    if n > 0 {
        lemma_dot_n_zero_row(x, m, j, (n - 1) as nat);
        lemma_mul_zero_one(m[n - 1][j]);
        assert(0u8 ^ 0u8 == 0u8) by (bit_vector);
    }
}

proof fn lemma_mat_mul_assoc_n(
    x: Seq<u8>,
    s: Seq<Seq<u8>>,
    d: Seq<Seq<u8>>,
    k: nat,
    l: nat,
    c: int,
    n: nat,
)
    requires
        n <= x.len(),
        x.len() == s.len(),
        shaped(s, k),
        d.len() == k,
        shaped(d, l),
        0 <= c < l,
    ensures
        dot_n(x, mat_mul(s, d, l), c, n) == dot_n(partial_row(x, s, k, n), d, c, k),
    decreases n,
{
    if n == 0 {
        lemma_dot_n_zero_row(partial_row(x, s, k, 0), d, c, k);
    } else {
        let m = (n - 1) as nat;
        lemma_mat_mul_assoc_n(x, s, d, k, l, c, m);
        let y = partial_row(x, s, k, m);
        let xm = x[m as int];
        let sm = s[m as int];
        assert forall|j: int| 0 <= j < k implies #[trigger] partial_row(x, s, k, n)[j]
            == add_scaled_seq(y, sm, xm)[j] by {
            lemma_mul_comm(xm, sm[j]);
        }
        assert(partial_row(x, s, k, n) =~= add_scaled_seq(y, sm, xm));
        lemma_dot_n_add_scaled(y, sm, xm, d, c, k);
        let e = dot_n(sm, d, c, k);
        lemma_mul_comm(e, xm);
        assert(mat_mul(s, d, l)[m as int][c] == dot(sm, d, c));
    }
}

/// Matrix multiplication is associative, entry by entry:
/// `(x * (s * d))[c] == ((x * s) * d)[c]`.
pub proof fn lemma_mat_mul_assoc(x: Seq<u8>, s: Seq<Seq<u8>>, d: Seq<Seq<u8>>, k: nat, l: nat, c: int)
    requires
        x.len() == s.len(),
        shaped(s, k),
        d.len() == k,
        shaped(d, l),
        0 <= c < l,
    ensures
        dot(x, mat_mul(s, d, l), c) == dot(partial_row(x, s, k, x.len()), d, c),
{
    lemma_mat_mul_assoc_n(x, s, d, k, l, c, x.len());
}

/// A unit row picks out one row of the right-hand factor.
pub proof fn lemma_dot_unit(x: Seq<u8>, m: Seq<Seq<u8>>, r: int, c: int)
    requires
        0 <= r < x.len(),
        forall|k: int| 0 <= k < x.len() ==> #[trigger] x[k] == if k == r {
            1u8
        } else {
            0u8
        },
    ensures
        dot(x, m, c) == m[r][c],
{
    lemma_dot_n_unit(x, m, r, c, x.len());
}

/// The identity is neutral on the left of a product.
pub proof fn lemma_identity_mul(m: Seq<Seq<u8>>, n: nat, cols: nat)
    requires
        m.len() == n,
        shaped(m, cols),
    ensures
        mat_mul(identity_model(n), m, cols) == m,
{
    assert forall|i: int, j: int| 0 <= i < n && 0 <= j < cols implies #[trigger] mat_mul(
        identity_model(n),
        m,
        cols,
    )[i][j] == m[i][j] by {
        lemma_dot_unit(identity_model(n)[i], m, i, j);
    }
    assert(mat_mul(identity_model(n), m, cols) =~~= m);
}

/// Some `n x n` matrix `l` has `l * m == I`.
pub open spec fn has_left_inverse(m: Seq<Seq<u8>>, n: nat) -> bool {
    exists|l: Seq<Seq<u8>>|
        l.len() == n && shaped(l, n) && #[trigger] mat_mul(l, m, n) == identity_model(n)
}

/// `v` is an `n x 1` column.
pub open spec fn column(v: Seq<Seq<u8>>, n: nat) -> bool {
    v.len() == n && shaped(v, 1)
}

/// Each of the first `n` rows of `m` times the column `v` is zero.
pub open spec fn annihilates(m: Seq<Seq<u8>>, v: Seq<Seq<u8>>, n: nat) -> bool {
    forall|r: int| 0 <= r < n ==> #[trigger] dot(m[r], v, 0) == 0u8
}

/// The first `n` entries of the column `v` are zero.
pub open spec fn zero_column(v: Seq<Seq<u8>>, n: nat) -> bool {
    forall|j: int| 0 <= j < n ==> #[trigger] v[j][0] == 0u8
}

/// `m` is nonsingular: only the zero column is sent to zero by `m`.
#[verifier::opaque]
pub open spec fn nonsingular(m: Seq<Seq<u8>>, n: nat) -> bool {
    forall|v: Seq<Seq<u8>>| column(v, n) && #[trigger] annihilates(m, v, n) ==> zero_column(v, n)
}

proof fn lemma_xor_facts(a: u8, b: u8)
    by (bit_vector)
    ensures
        a ^ 0u8 == a,
        0u8 ^ a == a,
        a ^ a == 0u8,
        (a ^ b == 0u8) ==> a == b,
{
}

proof fn lemma_identity_injective(n: nat)
    ensures
        nonsingular(identity_model(n), n),
{
    reveal(nonsingular);
    assert forall|v: Seq<Seq<u8>>|
        column(v, n) && #[trigger] annihilates(identity_model(n), v, n) implies zero_column(
        v,
        n,
    ) by {
        assert forall|j: int| 0 <= j < n implies #[trigger] v[j][0] == 0u8 by {
            lemma_dot_unit(identity_model(n)[j], v, j, 0);
            assert(dot(identity_model(n)[j], v, 0) == 0u8);
        }
    }
}

proof fn lemma_swap_injective(m: Seq<Seq<u8>>, n: nat, a: int, b: int)
    requires
        nonsingular(m, n),
        m.len() == n,
        0 <= a < n,
        0 <= b < n,
    ensures
        nonsingular(m.update(a, m[b]).update(b, m[a]), n),
{
    reveal(nonsingular);
    let s = m.update(a, m[b]).update(b, m[a]);
    assert forall|v: Seq<Seq<u8>>| column(v, n) && #[trigger] annihilates(s, v, n) implies zero_column(
        v,
        n,
    ) by {
        assert forall|r: int| 0 <= r < n implies #[trigger] dot(m[r], v, 0) == 0u8 by {
            if r == a {
                assert(dot(s[b], v, 0) == 0u8);
            } else if r == b {
                assert(dot(s[a], v, 0) == 0u8);
            } else {
                assert(dot(s[r], v, 0) == 0u8);
            }
        }
        assert(annihilates(m, v, n));
    }
}

proof fn lemma_scale_injective(m: Seq<Seq<u8>>, n: nat, p: int, f: u8)
    requires
        nonsingular(m, n),
        m.len() == n,
        0 <= p < n,
        f != 0,
    ensures
        nonsingular(m.update(p, scale_seq(m[p], f)), n),
{
    reveal(nonsingular);
    let s = m.update(p, scale_seq(m[p], f));
    assert forall|v: Seq<Seq<u8>>| column(v, n) && #[trigger] annihilates(s, v, n) implies zero_column(
        v,
        n,
    ) by {
        assert forall|r: int| 0 <= r < n implies #[trigger] dot(m[r], v, 0) == 0u8 by {
            assert(dot(s[r], v, 0) == 0u8);
            if r == p {
                lemma_dot_n_scale(m[p], f, v, 0, m[p].len());
                let d = dot(m[p], v, 0);
                if d != 0 {
                    lemma_no_zero_divisors(d, f);
                }
            }
        }
        assert(annihilates(m, v, n));
    }
}

proof fn lemma_add_scaled_injective(m: Seq<Seq<u8>>, n: nat, t: int, p: int, f: u8)
    requires
        nonsingular(m, n),
        m.len() == n,
        0 <= t < n,
        0 <= p < n,
        t != p,
        m[t].len() == m[p].len(),
    ensures
        nonsingular(m.update(t, add_scaled_seq(m[t], m[p], f)), n),
{
    reveal(nonsingular);
    let s = m.update(t, add_scaled_seq(m[t], m[p], f));
    assert forall|v: Seq<Seq<u8>>| column(v, n) && #[trigger] annihilates(s, v, n) implies zero_column(
        v,
        n,
    ) by {
        assert forall|r: int| 0 <= r < n implies #[trigger] dot(m[r], v, 0) == 0u8 by {
            assert(dot(s[r], v, 0) == 0u8);
            if r == t {
                assert(dot(s[p], v, 0) == 0u8);
                lemma_dot_n_add_scaled(m[t], m[p], f, v, 0, m[t].len());
                lemma_mul_zero_one(f);
                lemma_xor_facts(dot(m[t], v, 0), 0u8);
            }
        }
        assert(annihilates(m, v, n));
    }
}

/// The column that expresses column `pc` of `w` through its first `pc`
/// unit columns: `w[0][pc], ..., w[pc-1][pc], 1, 0, ..., 0`.
spec fn dependency(w: Seq<Seq<u8>>, pc: int, n: nat) -> Seq<Seq<u8>> {
    Seq::new(
        n,
        |j: int|
            seq![
                if j < pc {
                    w[j][pc]
                } else if j == pc {
                    1u8
                } else {
                    0u8
                },
            ],
    )
}

proof fn lemma_dot_dependency(w: Seq<Seq<u8>>, pc: int, n: nat, r: int, upto: nat)
    requires
        w.len() == n,
        shaped(w, n),
        0 <= pc < n,
        0 <= r < n,
        upto <= n,
        forall|rr: int, c: int|
            0 <= rr < n && 0 <= c < pc ==> #[trigger] w[rr][c] == if rr == c {
                1u8
            } else {
                0u8
            },
    ensures
        dot_n(w[r], dependency(w, pc, n), 0, upto) == (if r < pc && r < upto {
            w[r][pc]
        } else {
            0u8
        }) ^ (if pc < upto {
            w[r][pc]
        } else {
            0u8
        }),
    decreases upto,
{
    let a = w[r][pc];
    lemma_xor_facts(a, 0u8);
    lemma_xor_facts(0u8, 0u8);
    if upto > 0 {
        let k = (upto - 1) as int;
        lemma_dot_dependency(w, pc, n, r, (upto - 1) as nat);
        let x = w[r][k];
        let vk = dependency(w, pc, n)[k][0];
        lemma_mul_zero_one(x);
        lemma_mul_zero_one(vk);
        if k < pc {
            assert(x == if r == k {
                1u8
            } else {
                0u8
            });
        }
    }
}

proof fn lemma_dot_n_zero_column(x: Seq<u8>, y: Seq<Seq<u8>>, upto: nat)
    requires
        upto <= x.len(),
        forall|j: int| 0 <= j < upto ==> #[trigger] y[j][0] == 0u8,
    ensures
        dot_n(x, y, 0, upto) == 0u8,
    decreases upto,
{
    if upto > 0 {
        lemma_dot_n_zero_column(x, y, (upto - 1) as nat);
        lemma_mul_zero_one(x[upto - 1]);
        lemma_xor_facts(0u8, 0u8);
    }
}

/// When the first `pc` columns of `w = inv * orig` are unit columns, column
/// `pc` of `w` is zero from row `pc` down, and `inv` is nonsingular, then
/// `orig` has no left inverse: `orig` sends a nonzero column to zero.
proof fn lemma_stuck_pivot_singular(
    orig: Seq<Seq<u8>>,
    inv: Seq<Seq<u8>>,
    w: Seq<Seq<u8>>,
    n: nat,
    pc: int,
)
    requires
        orig.len() == n,
        shaped(orig, n),
        inv.len() == n,
        shaped(inv, n),
        w.len() == n,
        shaped(w, n),
        nonsingular(inv, n),
        0 <= pc < n,
        forall|r: int, c: int| 0 <= r < n && 0 <= c < n ==> #[trigger] w[r][c] == dot(inv[r], orig, c),
        forall|r: int, c: int|
            0 <= r < n && 0 <= c < pc ==> #[trigger] w[r][c] == if r == c {
                1u8
            } else {
                0u8
            },
        forall|r: int| pc <= r < n ==> #[trigger] w[r][pc] == 0u8,
    ensures
        !has_left_inverse(orig, n),
        !nonsingular(orig, n),
{
    let v = dependency(w, pc, n);
    let y = mat_mul(orig, v, 1);
    assert forall|r: int| 0 <= r < n implies #[trigger] dot(inv[r], y, 0) == 0u8 by {
        lemma_dot_dependency(w, pc, n, r, n);
        lemma_xor_facts(w[r][pc], 0u8);
        assert(w[r][pc] == 0u8 || r < pc);
        lemma_mat_mul_assoc(inv[r], orig, v, n, 1, 0);
        assert(partial_row(inv[r], orig, n, inv[r].len()) =~= w[r]);
    }
    assert(column(y, n));
    assert(annihilates(inv, y, n));
    reveal(nonsingular);
    assert(zero_column(y, n));
    assert(annihilates(orig, v, n)) by {
        assert forall|r: int| 0 <= r < n implies #[trigger] dot(orig[r], v, 0) == 0u8 by {
            assert(y[r][0] == dot(orig[r], v, 0));
        }
    }
    assert(column(v, n));
    assert(v[pc][0] == 1u8);
    if has_left_inverse(orig, n) {
        let l = choose|l: Seq<Seq<u8>>|
            l.len() == n && shaped(l, n) && #[trigger] mat_mul(l, orig, n) == identity_model(n);
        let row = l[pc];
        lemma_mat_mul_assoc(row, orig, v, n, 1, 0);
        assert(mat_mul(l, orig, n)[pc] == identity_model(n)[pc]);
        assert(partial_row(row, orig, n, row.len()) =~= identity_model(n)[pc]);
        lemma_dot_unit(identity_model(n)[pc], v, pc, 0);
        lemma_dot_n_zero_column(row, y, n);
        assert(false);
    }
}

/// A matrix with a left inverse is nonsingular.
proof fn lemma_left_inverse_nonsingular(m: Seq<Seq<u8>>, l: Seq<Seq<u8>>, n: nat)
    requires
        m.len() == n,
        shaped(m, n),
        l.len() == n,
        shaped(l, n),
        mat_mul(l, m, n) == identity_model(n),
    ensures
        nonsingular(m, n),
{
    reveal(nonsingular);
    assert forall|v: Seq<Seq<u8>>| column(v, n) && #[trigger] annihilates(m, v, n) implies zero_column(
        v,
        n,
    ) by {
        let y = mat_mul(m, v, 1);
        assert forall|j: int| 0 <= j < n implies #[trigger] y[j][0] == 0u8 by {
            assert(dot(m[j], v, 0) == 0u8);
        }
        assert forall|r: int| 0 <= r < n implies #[trigger] v[r][0] == 0u8 by {
            lemma_mat_mul_assoc(l[r], m, v, n, 1, 0);
            assert(mat_mul(l, m, n)[r] == identity_model(n)[r]);
            assert(partial_row(l[r], m, n, l[r].len()) =~= identity_model(n)[r]);
            lemma_dot_unit(identity_model(n)[r], v, r, 0);
            lemma_dot_n_zero_column(l[r], y, n);
        }
    }
}

/// The dot product is additive in the column: `x.(a + b) = x.a + x.b`.
proof fn lemma_dot_n_col_xor(x: Seq<u8>, a: Seq<Seq<u8>>, b: Seq<Seq<u8>>, c: Seq<Seq<u8>>, n: nat)
    requires
        n <= x.len(),
        forall|k: int| 0 <= k < n ==> #[trigger] c[k][0] == a[k][0] ^ b[k][0],
    ensures
        dot_n(x, c, 0, n) == dot_n(x, a, 0, n) ^ dot_n(x, b, 0, n),
    decreases n,
{
    if n == 0 {
        lemma_xor_facts(0u8, 0u8);
    } else {
        let k = (n - 1) as int;
        lemma_dot_n_col_xor(x, a, b, c, (n - 1) as nat);
        lemma_mul_distrib(x[k], a[k][0], b[k][0]);
        let pa = dot_n(x, a, 0, (n - 1) as nat);
        let pb = dot_n(x, b, 0, (n - 1) as nat);
        let ta = gf_mul(x[k], a[k][0]);
        let tb = gf_mul(x[k], b[k][0]);
        assert((pa ^ pb) ^ (ta ^ tb) == (pa ^ ta) ^ (pb ^ tb)) by (bit_vector);
    }
}

/// Column `j` of `m` as an `n x 1` matrix.
spec fn column_of(m: Seq<Seq<u8>>, j: int) -> Seq<Seq<u8>> {
    Seq::new(m.len(), |r: int| seq![m[r][j]])
}

proof fn lemma_dot_n_column_of(x: Seq<u8>, m: Seq<Seq<u8>>, j: int, n: nat)
    requires
        n <= m.len(),
    ensures
        dot_n(x, column_of(m, j), 0, n) == dot_n(x, m, j, n),
    decreases n,
{
    if n > 0 {
        lemma_dot_n_column_of(x, m, j, (n - 1) as nat);
    }
}

/// A nonsingular left inverse is also a right inverse.
proof fn lemma_right_inverse(m: Seq<Seq<u8>>, l: Seq<Seq<u8>>, n: nat)
    requires
        m.len() == n,
        shaped(m, n),
        l.len() == n,
        shaped(l, n),
        mat_mul(l, m, n) == identity_model(n),
        nonsingular(l, n),
    ensures
        mat_mul(m, l, n) == identity_model(n),
{
    let w = mat_mul(m, l, n);
    assert forall|i: int, j: int| 0 <= i < n && 0 <= j < n implies #[trigger] w[i][j]
        == identity_model(n)[i][j] by {
        let lc = column_of(l, j);
        let wc = mat_mul(m, lc, 1);
        let e = column_of(identity_model(n), j);
        let u = Seq::new(n, |r: int| seq![(wc[r][0] ^ e[r][0]) as u8]);
        assert forall|r: int| 0 <= r < n implies #[trigger] dot(l[r], u, 0) == 0u8 by {
            lemma_dot_n_col_xor(l[r], wc, e, u, n);
            lemma_mat_mul_assoc(l[r], m, lc, n, 1, 0);
            assert(mat_mul(l, m, n)[r] == identity_model(n)[r]);
            assert(partial_row(l[r], m, n, l[r].len()) =~= identity_model(n)[r]);
            lemma_dot_unit(identity_model(n)[r], lc, r, 0);
            lemma_dot_n_column_of(l[r], identity_model(n), j, n);
            lemma_dot_n_identity(l[r], n, j, n);
            lemma_xor_facts(l[r][j], 0u8);
        }
        reveal(nonsingular);
        assert(column(u, n));
        assert(annihilates(l, u, n));
        assert(zero_column(u, n));
        assert(u[i][0] == 0u8);
        lemma_dot_n_column_of(m[i], l, j, n);
        lemma_xor_facts(wc[i][0], e[i][0]);
    }
    assert(w =~~= identity_model(n));
}

/// Matrix multiplication is associative.
proof fn lemma_mat_assoc(a: Seq<Seq<u8>>, b: Seq<Seq<u8>>, c: Seq<Seq<u8>>, p: nat, q: nat)
    requires
        shaped(a, b.len()),
        shaped(b, p),
        c.len() == p,
        shaped(c, q),
    ensures
        mat_mul(mat_mul(a, b, p), c, q) == mat_mul(a, mat_mul(b, c, q), q),
{
    assert forall|i: int, j: int| 0 <= i < a.len() && 0 <= j < q implies #[trigger] mat_mul(
        mat_mul(a, b, p),
        c,
        q,
    )[i][j] == mat_mul(a, mat_mul(b, c, q), q)[i][j] by {
        lemma_mat_mul_assoc(a[i], b, c, p, q, j);
        assert(partial_row(a[i], b, p, a[i].len()) =~= mat_mul(a, b, p)[i]);
    }
    assert(mat_mul(mat_mul(a, b, p), c, q) =~~= mat_mul(a, mat_mul(b, c, q), q));
}

/// The identity is neutral on the right of a product.
proof fn lemma_mul_identity_right(m: Seq<Seq<u8>>, n: nat)
    requires
        shaped(m, n),
    ensures
        mat_mul(m, identity_model(n), n) == m,
{
    assert forall|i: int, j: int| 0 <= i < m.len() && 0 <= j < n implies #[trigger] mat_mul(
        m,
        identity_model(n),
        n,
    )[i][j] == m[i][j] by {
        lemma_dot_n_identity(m[i], n, j, n);
    }
    assert(mat_mul(m, identity_model(n), n) =~~= m);
}

/// `t` is a two-sided inverse of the `k x k` matrix `m`.
pub open spec fn is_inverse(t: Seq<Seq<u8>>, m: Seq<Seq<u8>>, k: nat) -> bool {
    &&& t.len() == k
    &&& shaped(t, k)
    &&& mat_mul(t, m, k) == identity_model(k)
    &&& mat_mul(m, t, k) == identity_model(k)
}

/// A square matrix has at most one two-sided inverse.
proof fn lemma_inverse_unique(t1: Seq<Seq<u8>>, t2: Seq<Seq<u8>>, m: Seq<Seq<u8>>, k: nat)
    requires
        m.len() == k,
        shaped(m, k),
        is_inverse(t1, m, k),
        is_inverse(t2, m, k),
    ensures
        t1 == t2,
{
    lemma_mul_identity_right(t2, k);
    lemma_mat_assoc(t2, m, t1, k, k);
    lemma_identity_mul(t1, k, k);
}

/// The rows `x^0, x^1, ..., x^(k-1)` for each point `x`.
pub open spec fn vandermonde(points: Seq<u8>, k: nat) -> Seq<Seq<u8>> {
    Seq::new(points.len(), |i: int| Seq::new(k, |j: int| gf_pow(points[i], j as nat)))
}

/// The first `n` entries of column `v`, as coefficients.
spec fn coefficients(v: Seq<Seq<u8>>, n: nat) -> Seq<u8> {
    Seq::new(n, |j: int| v[j][0])
}

proof fn lemma_dot_power_row(row: Seq<u8>, a: u8, v: Seq<Seq<u8>>, k: nat, n: nat)
    requires
        n <= k,
        row.len() == k,
        forall|j: int| 0 <= j < k ==> #[trigger] row[j] == gf_pow(a, j as nat),
    ensures
        dot_n(row, v, 0, n) == power_sum(coefficients(v, k), a, n),
    decreases n,
{
    if n > 0 {
        lemma_dot_power_row(row, a, v, k, (n - 1) as nat);
    }
}

/// A square Vandermonde matrix with distinct points is nonsingular.
pub proof fn lemma_vandermonde_nonsingular(points: Seq<u8>)
    requires
        distinct_points(points),
    ensures
        nonsingular(vandermonde(points, points.len()), points.len()),
{
    let k = points.len();
    let vm = vandermonde(points, k);
    reveal(nonsingular);
    assert forall|v: Seq<Seq<u8>>| column(v, k) && #[trigger] annihilates(vm, v, k) implies zero_column(
        v,
        k,
    ) by {
        let c = coefficients(v, k);
        assert forall|i: int| 0 <= i < points.len() implies #[trigger] horner(c, points[i]) == 0u8 by {
            assert(dot(vm[i], v, 0) == 0u8);
            lemma_dot_power_row(vm[i], points[i], v, k, k);
            lemma_power_sum_horner(c, points[i]);
        }
        lemma_roots(c, points);
        assert forall|j: int| 0 <= j < k implies #[trigger] v[j][0] == 0u8 by {
            assert(c[j] == 0u8);
        }
    }
}

/// The product of nonsingular square matrices is nonsingular.
proof fn lemma_product_nonsingular(a: Seq<Seq<u8>>, t: Seq<Seq<u8>>, k: nat)
    requires
        a.len() == k,
        shaped(a, k),
        t.len() == k,
        shaped(t, k),
        nonsingular(a, k),
        nonsingular(t, k),
    ensures
        nonsingular(mat_mul(a, t, k), k),
{
    let g = mat_mul(a, t, k);
    reveal(nonsingular);
    assert forall|v: Seq<Seq<u8>>| column(v, k) && #[trigger] annihilates(g, v, k) implies zero_column(
        v,
        k,
    ) by {
        let tv = mat_mul(t, v, 1);
        assert forall|r: int| 0 <= r < k implies #[trigger] dot(a[r], tv, 0) == 0u8 by {
            lemma_mat_mul_assoc(a[r], t, v, k, 1, 0);
            assert(partial_row(a[r], t, k, a[r].len()) =~= g[r]);
            assert(dot(g[r], v, 0) == 0u8);
        }
        assert(column(tv, k));
        assert(annihilates(a, tv, k));
        assert(zero_column(tv, k));
        assert forall|r: int| 0 <= r < k implies #[trigger] dot(t[r], v, 0) == 0u8 by {
            assert(tv[r][0] == dot(t[r], v, 0));
        }
        assert(annihilates(t, v, k));
    }
}

/// The evaluation points of the generator's rows: row `i` at `i`.
pub open spec fn generator_points(n: nat) -> Seq<u8> {
    Seq::new(n, |i: int| i as u8)
}

/// The inverse of the generator's top `k x k` Vandermonde block.
pub open spec fn top_inverse(k: nat) -> Seq<Seq<u8>> {
    choose|t: Seq<Seq<u8>>| is_inverse(t, vandermonde(generator_points(k), k), k)
}

/// The systematic generator: the `(k + m) x k` Vandermonde matrix at points
/// `0, 1, ..., k + m - 1`, times the inverse of its top `k x k` block, so
/// that the top block becomes the identity and every `k` rows stay
/// independent.
pub open spec fn generator_model(data_shards: nat, parity_shards: nat) -> Seq<Seq<u8>> {
    mat_mul(
        vandermonde(generator_points(data_shards + parity_shards), data_shards),
        top_inverse(data_shards),
        data_shards,
    )
}

/// `rows` picks `k` different rows, each below `n`.
pub open spec fn row_choice(rows: Seq<usize>, k: nat, n: nat) -> bool {
    &&& rows.len() == k
    &&& forall|r: int| 0 <= r < k ==> #[trigger] rows[r] < n
    &&& forall|r: int, s: int| 0 <= r < k && 0 <= s < k && r != s ==> #[trigger] rows[r] != #[trigger] rows[s]
}

/// A dense matrix over `GF(2^8)`, stored row-major.
#[derive(Debug, Clone, PartialEq, Eq)]
pub struct Matrix {
    rows: usize,
    cols: usize,
    data: Vec<u8>,
}

impl View for Matrix {
    type V = Seq<Seq<u8>>;

    closed spec fn view(&self) -> Seq<Seq<u8>> {
        Seq::new(
            self.rows as nat,
            |i: int| Seq::new(self.cols as nat, |j: int| self.data@[i * self.cols + j]),
        )
    }
}

impl Matrix {
    /// The number of columns, which the view cannot carry for a matrix
    /// without rows.
    pub closed spec fn ncols(&self) -> nat {
        self.cols as nat
    }

    pub closed spec fn storage_ok(&self) -> bool {
        self.data@.len() == self.rows * self.cols
    }

    /// The storage holds exactly `rows * cols` entries, and the view has
    /// that shape.
    pub open spec fn wf(&self) -> bool {
        &&& self.storage_ok()
        &&& shaped(self@, self.ncols())
    }

    /// A zero-filled `rows x cols` matrix.
    pub fn zeros(rows: usize, cols: usize) -> (m: Matrix)
        requires
            rows * cols <= usize::MAX,
        ensures
            m.wf(),
            m.ncols() == cols,
            m@ == zeros_model(rows as nat, cols as nat),
    {
        let data = vec![0u8; rows * cols];
        let m = Matrix { rows, cols, data };
        proof {
            assert forall|i: int, j: int| 0 <= i < rows && 0 <= j < cols implies m@[i][j] == 0u8 by {
                lemma_index(i, j, rows as int, cols as int);
            }
            assert(m@ =~~= zeros_model(rows as nat, cols as nat));
        }
        m
    }

    /// The `n x n` identity matrix.
    pub fn identity(n: usize) -> (m: Matrix)
        requires
            n * n <= usize::MAX,
        ensures
            m.wf(),
            m.ncols() == n,
            m@ == identity_model(n as nat),
    {
        let mut m = Matrix::zeros(n, n);
        let mut i: usize = 0;
        while i < n
            invariant
                i <= n,
                m.wf(),
                m.ncols() == n,
                m@.len() == n,
                forall|r: int, c: int|
                    0 <= r < n && 0 <= c < n ==> #[trigger] m@[r][c] == if r == c && r < i {
                        1u8
                    } else {
                        0u8
                    },
            decreases n - i,
        {
            m.set(i, i, 1);
            i = i + 1;
        }
        assert(m@ =~~= identity_model(n as nat));
        m
    }

    pub fn rows(&self) -> (r: usize)
        requires
            self.wf(),
        ensures
            r == self@.len(),
    {
        self.rows
    }

    pub fn cols(&self) -> (c: usize)
        ensures
            c == self.ncols(),
    {
        self.cols
    }

    pub fn get(&self, row: usize, col: usize) -> (v: u8)
        requires
            self.wf(),
            row < self@.len(),
            col < self.ncols(),
        ensures
            v == self@[row as int][col as int],
    {
        let len = self.data.len();
        proof {
            lemma_index(row as int, col as int, self.rows as int, self.cols as int);
            assert(row * self.cols <= row * self.cols + col < len);
        }
        self.data[row * self.cols + col]
    }

    pub fn set(&mut self, row: usize, col: usize, value: u8)
        requires
            old(self).wf(),
            row < old(self)@.len(),
            col < old(self).ncols(),
        ensures
            final(self).wf(),
            final(self).ncols() == old(self).ncols(),
            final(self)@ == old(self)@.update(
                row as int,
                old(self)@[row as int].update(col as int, value),
            ),
    {
        let len = self.data.len();
        proof {
            lemma_index(row as int, col as int, self.rows as int, self.cols as int);
            assert(row * self.cols <= row * self.cols + col < len);
        }
        let idx = row * self.cols + col;
        let ghost before = *self;
        self.data.set(idx, value);
        proof {
            let expected = before@.update(row as int, before@[row as int].update(col as int, value));
            assert forall|i: int, j: int| 0 <= i < self.rows && 0 <= j < self.cols implies #[trigger] self@[i][j]
                == expected[i][j] by {
                lemma_index(i, j, self.rows as int, self.cols as int);
                if i * self.cols + j == idx {
                    lemma_index_inj(i, j, row as int, col as int, self.cols as int);
                }
                if i == row && j == col {
                } else if i * self.cols + j == idx {
                    lemma_index_inj(i, j, row as int, col as int, self.cols as int);
                }
            }
            assert(self@ =~~= expected);
        }
    }

    /// The submatrix formed by taking exactly `row_indices` (in order),
    /// keeping all columns.
    pub fn select_rows(&self, row_indices: &[usize]) -> (out: Matrix)
        requires
            self.wf(),
            forall|i: int| 0 <= i < row_indices@.len() ==> #[trigger] row_indices@[i] < self@.len(),
            row_indices@.len() * self.ncols() <= usize::MAX,
        ensures
            out.wf(),
            out.ncols() == self.ncols(),
            out@ == select_model(self@, row_indices@),
    {
        let mut out = Matrix::zeros(row_indices.len(), self.cols);
        let mut new_row: usize = 0;
        while new_row < row_indices.len()
            invariant
                self.wf(),
                forall|i: int|
                    0 <= i < row_indices@.len() ==> #[trigger] row_indices@[i] < self@.len(),
                new_row <= row_indices@.len(),
                out.wf(),
                out.ncols() == self.ncols(),
                out@.len() == row_indices@.len(),
                forall|r: int, c: int|
                    0 <= r < row_indices@.len() && 0 <= c < self.ncols() ==> #[trigger] out@[r][c]
                        == if r < new_row {
                        self@[row_indices@[r] as int][c]
                    } else {
                        0u8
                    },
            decreases row_indices@.len() - new_row,
        {
            let old_row = row_indices[new_row];
            let mut col: usize = 0;
            while col < self.cols
                invariant
                    self.wf(),
                    new_row < row_indices@.len(),
                    old_row == row_indices@[new_row as int],
                    old_row < self@.len(),
                    col <= self.ncols(),
                    out.wf(),
                    out.ncols() == self.ncols(),
                    out@.len() == row_indices@.len(),
                    forall|r: int, c: int|
                        0 <= r < row_indices@.len() && 0 <= c < self.ncols() ==> #[trigger] out@[r][c]
                            == if r < new_row || (r == new_row && c < col) {
                            self@[row_indices@[r] as int][c]
                        } else {
                            0u8
                        },
                decreases self.ncols() - col,
            {
                let v = self.get(old_row, col);
                out.set(new_row, col, v);
                col = col + 1;
            }
            new_row = new_row + 1;
        }
        assert(out@ =~~= select_model(self@, row_indices@));
        out
    }

    /// A single row as a standalone `1 x cols` matrix.
    pub fn row(&self, row: usize) -> (out: Matrix)
        requires
            self.wf(),
            row < self@.len(),
        ensures
            out.wf(),
            out.ncols() == self.ncols(),
            out@ == seq![self@[row as int]],
    {
        let idx = vec![row];
        proof {
            assert(self.data@.len() == self.rows * self.cols);
            lemma_index(row as int, 0, self.rows as int, 1);
            assert(1 * self.cols == self.cols);
            assert(self.cols <= self.rows * self.cols) by (nonlinear_arith)
                requires
                    row < self.rows,
            ;
        }
        let out = self.select_rows(idx.as_slice());
        assert(out@ =~= seq![self@[row as int]]);
        out
    }

    /// Matrix-matrix product over `GF(2^8)` (addition is XOR).
    pub fn mul(&self, other: &Matrix) -> (out: Matrix)
        requires
            self.wf(),
            other.wf(),
            self.ncols() == other@.len(),
            self@.len() * other.ncols() <= usize::MAX,
        ensures
            out.wf(),
            out.ncols() == other.ncols(),
            out@ == mat_mul(self@, other@, other.ncols()),
    {
        let mut out = Matrix::zeros(self.rows, other.cols);
        let mut i: usize = 0;
        while i < self.rows
            invariant
                self.wf(),
                other.wf(),
                self.ncols() == other@.len(),
                i <= self@.len(),
                out.wf(),
                out.ncols() == other.ncols(),
                out@.len() == self@.len(),
                forall|r: int, c: int|
                    0 <= r < self@.len() && 0 <= c < other.ncols() ==> #[trigger] out@[r][c] == if r
                        < i {
                        dot(self@[r], other@, c)
                    } else {
                        0u8
                    },
            decreases self@.len() - i,
        {
            let mut k: usize = 0;
            while k < self.cols
                invariant
                    self.wf(),
                    other.wf(),
                    self.ncols() == other@.len(),
                    i < self@.len(),
                    k <= self.ncols(),
                    out.wf(),
                    out.ncols() == other.ncols(),
                    out@.len() == self@.len(),
                    forall|r: int, c: int|
                        0 <= r < self@.len() && 0 <= c < other.ncols() ==> #[trigger] out@[r][c]
                            == if r < i {
                            dot(self@[r], other@, c)
                        } else if r == i {
                            dot_n(self@[r], other@, c, k as nat)
                        } else {
                            0u8
                        },
                decreases self.ncols() - k,
            {
                let a = self.get(i, k);
                let mut j: usize = 0;
                while j < other.cols
                    invariant
                        self.wf(),
                        other.wf(),
                        self.ncols() == other@.len(),
                        i < self@.len(),
                        k < self.ncols(),
                        j <= other.ncols(),
                        a == self@[i as int][k as int],
                        out.wf(),
                        out.ncols() == other.ncols(),
                        out@.len() == self@.len(),
                        forall|r: int, c: int|
                            0 <= r < self@.len() && 0 <= c < other.ncols() ==> #[trigger] out@[r][c]
                                == if r < i {
                                dot(self@[r], other@, c)
                            } else if r == i {
                                if c < j {
                                    dot_n(self@[r], other@, c, (k + 1) as nat)
                                } else {
                                    dot_n(self@[r], other@, c, k as nat)
                                }
                            } else {
                                0u8
                            },
                    decreases other.ncols() - j,
                {
                    if a != 0 {
                        let product = crate::gf256::mul(a, other.get(k, j));
                        let existing = out.get(i, j);
                        out.set(i, j, existing ^ product);
                    } else {
                        proof {
                            let b = other@[k as int][j as int];
                            lemma_mul_zero_one(b);
                            let prev = dot_n(self@[i as int], other@, j as int, k as nat);
                            assert(prev ^ 0u8 == prev) by (bit_vector);
                        }
                    }
                    j = j + 1;
                }
                k = k + 1;
            }
            i = i + 1;
        }
        assert(out@ =~~= mat_mul(self@, other@, other.ncols()));
        out
    }

    /// The Gauss-Jordan inverse of this square matrix, or `None` when a
    /// pivot column has no nonzero entry, which happens exactly when the
    /// matrix is singular. A returned matrix is an inverse on both sides.
    #[verifier::spinoff_prover]
    pub fn invert(&self) -> (result: Option<Matrix>)
        requires
            self.wf(),
            self@.len() == self.ncols(),
            self.ncols() * self.ncols() <= usize::MAX,
        ensures
            result matches Some(inv) ==> {
                &&& inv.wf()
                &&& inv@.len() == self@.len()
                &&& inv.ncols() == self.ncols()
                &&& mat_mul(inv@, self@, self.ncols()) == identity_model(self.ncols())
                &&& mat_mul(self@, inv@, self.ncols()) == identity_model(self.ncols())
            },
            result is Some <==> nonsingular(self@, self.ncols()),
            result is Some <==> has_left_inverse(self@, self.ncols()),
            self@ == identity_model(self.ncols()) ==> (result matches Some(inv) && inv@
                == identity_model(self.ncols())),
    {
        let n = self.rows;
        let mut work = self.duplicate();
        let mut inverse = Matrix::identity(n);
        let ghost orig = self@;
        proof {
            assert(work@ == self@);
            assert forall|r: int, c: int| 0 <= r < n && 0 <= c < n implies #[trigger] work@[r][c]
                == dot(inverse@[r], orig, c) by {
                lemma_dot_n_identity_row(orig, n as nat, r, c);
            }
            lemma_identity_injective(n as nat);
        }
        let mut pivot_col: usize = 0;
        while pivot_col < n
            invariant
                n == self@.len(),
                n == self.ncols(),
                n * n <= usize::MAX,
                orig == self@,
                shaped(orig, n as nat),
                pivot_col <= n,
                orig == identity_model(n as nat) ==> work@ == identity_model(n as nat),
                work.wf(),
                work@.len() == n,
                work.ncols() == n,
                inverse.wf(),
                inverse@.len() == n,
                inverse.ncols() == n,
                nonsingular(inverse@, n as nat),
                forall|r: int, c: int|
                    0 <= r < n && 0 <= c < n ==> #[trigger] work@[r][c] == dot(
                        inverse@[r],
                        orig,
                        c,
                    ),
                forall|r: int, c: int|
                    0 <= r < n && 0 <= c < pivot_col ==> #[trigger] work@[r][c] == if r == c {
                        1u8
                    } else {
                        0u8
                    },
            decreases n - pivot_col,
        {
            // Find a pivot at or below the diagonal.
            let mut pivot_row: usize = pivot_col;
            while pivot_row < n && work.get(pivot_row, pivot_col) == 0
                invariant
                    pivot_col < n,
                    pivot_col <= pivot_row <= n,
                    orig == identity_model(n as nat) ==> work@ == identity_model(n as nat),
                    orig == identity_model(n as nat) ==> pivot_row == pivot_col,
                    work.wf(),
                    work@.len() == n,
                    work.ncols() == n,
                    forall|rr: int| pivot_col <= rr < pivot_row ==> #[trigger] work@[rr][pivot_col as int] == 0u8,
                decreases n - pivot_row,
            {
                pivot_row = pivot_row + 1;
            }
            if pivot_row == n {
                proof {
                    lemma_stuck_pivot_singular(orig, inverse@, work@, n as nat, pivot_col as int);
                }
                return None;
            }
            if pivot_row != pivot_col {
                let ghost w0 = work@;
                let ghost i0 = inverse@;
                work.swap_rows(pivot_row, pivot_col);
                inverse.swap_rows(pivot_row, pivot_col);
                proof {
                    lemma_swap_injective(i0, n as nat, pivot_row as int, pivot_col as int);
                    assert forall|r: int, c: int| 0 <= r < n && 0 <= c < n implies #[trigger] work@[r][c]
                        == dot(inverse@[r], orig, c) by {
                        if r == pivot_row {
                            assert(work@[r] == w0[pivot_col as int]);
                        } else if r == pivot_col {
                            assert(work@[r] == w0[pivot_row as int]);
                        }
                    }
                }
            }
            let pivot_val = work.get(pivot_col, pivot_col);
            let pivot_inv = crate::gf256::inv(pivot_val);
            let ghost w1 = work@;
            let ghost i1 = inverse@;
            work.scale_row(pivot_col, pivot_inv);
            inverse.scale_row(pivot_col, pivot_inv);
            proof {
                lemma_inv_correct(pivot_val);
                lemma_scale_injective(i1, n as nat, pivot_col as int, pivot_inv);
                if orig == identity_model(n as nat) {
                    lemma_mul_zero_one(pivot_inv);
                    assert(pivot_val == 1u8);
                    assert(pivot_inv == 1u8);
                    assert forall|c: int| 0 <= c < n implies #[trigger] scale_seq(w1[pivot_col as int], pivot_inv)[c]
                        == w1[pivot_col as int][c] by {
                        lemma_mul_zero_one(w1[pivot_col as int][c]);
                    }
                    assert(scale_seq(w1[pivot_col as int], pivot_inv) =~= w1[pivot_col as int]);
                    assert(work@ =~= w1);
                }
                assert forall|r: int, c: int| 0 <= r < n && 0 <= c < n implies #[trigger] work@[r][c]
                    == dot(inverse@[r], orig, c) by {
                    if r == pivot_col {
                        lemma_dot_n_scale(i1[r], pivot_inv, orig, c, n as nat);
                    }
                }
                assert forall|r: int, c: int| 0 <= r < n && 0 <= c < pivot_col implies #[trigger] work@[r][c]
                    == if r == c {
                    1u8
                } else {
                    0u8
                } by {
                    if r == pivot_col {
                        lemma_mul_zero_one(pivot_inv);
                    }
                }
                assert(work@[pivot_col as int][pivot_col as int] == 1u8);
            }
            let mut r: usize = 0;
            while r < n
                invariant
                    n == self@.len(),
                    n == self.ncols(),
                    n * n <= usize::MAX,
                    orig == self@,
                    shaped(orig, n as nat),
                    pivot_col < n,
                    r <= n,
                    orig == identity_model(n as nat) ==> work@ == identity_model(n as nat),
                    work.wf(),
                    work@.len() == n,
                    work.ncols() == n,
                    inverse.wf(),
                    inverse@.len() == n,
                    inverse.ncols() == n,
                    nonsingular(inverse@, n as nat),
                    work@[pivot_col as int][pivot_col as int] == 1u8,
                    forall|rr: int, c: int|
                        0 <= rr < n && 0 <= c < n ==> #[trigger] work@[rr][c] == dot(
                            inverse@[rr],
                            orig,
                            c,
                        ),
                    forall|rr: int, c: int|
                        0 <= rr < n && 0 <= c < pivot_col ==> #[trigger] work@[rr][c] == if rr
                            == c {
                            1u8
                        } else {
                            0u8
                        },
                    forall|rr: int|
                        0 <= rr < r && rr != pivot_col ==> #[trigger] work@[rr][pivot_col as int]
                            == 0u8,
                decreases n - r,
            {
                if r != pivot_col {
                    let factor = work.get(r, pivot_col);
                    if factor != 0 {
                        let ghost w2 = work@;
                        let ghost i2 = inverse@;
                        work.add_scaled_row(r, pivot_col, factor);
                        inverse.add_scaled_row(r, pivot_col, factor);
                        proof {
                            lemma_add_scaled_injective(i2, n as nat, r as int, pivot_col as int, factor);
                            assert forall|rr: int, c: int| 0 <= rr < n && 0 <= c < n implies #[trigger] work@[rr][c]
                                == dot(inverse@[rr], orig, c) by {
                                if rr == r {
                                    lemma_dot_n_add_scaled(
                                        i2[rr],
                                        i2[pivot_col as int],
                                        factor,
                                        orig,
                                        c,
                                        n as nat,
                                    );
                                }
                            }
                            assert forall|rr: int, c: int| 0 <= rr < n && 0 <= c < pivot_col implies #[trigger] work@[rr][c]
                                == if rr == c {
                                1u8
                            } else {
                                0u8
                            } by {
                                if rr == r {
                                    lemma_mul_zero_one(factor);
                                    let v = w2[rr][c];
                                    assert(v ^ 0u8 == v) by (bit_vector);
                                }
                            }
                            lemma_mul_zero_one(factor);
                            assert(factor ^ factor == 0u8) by (bit_vector);
                            assert(work@[r as int][pivot_col as int] == 0u8);
                        }
                    }
                }
                r = r + 1;
            }
            pivot_col = pivot_col + 1;
        }
        proof {
            assert forall|rr: int, c: int| 0 <= rr < n && 0 <= c < n implies #[trigger] mat_mul(
                inverse@,
                orig,
                n as nat,
            )[rr][c] == identity_model(n as nat)[rr][c] by {
                assert(work@[rr][c] == dot(inverse@[rr], orig, c));
            }
            assert(mat_mul(inverse@, orig, n as nat) =~~= identity_model(n as nat));
            assert(has_left_inverse(orig, n as nat));
            lemma_right_inverse(orig, inverse@, n as nat);
            lemma_left_inverse_nonsingular(orig, inverse@, n as nat);
            if orig == identity_model(n as nat) {
                lemma_mul_identity_right(inverse@, n as nat);
            }
        }
        Some(inverse)
    }

    fn duplicate(&self) -> (out: Matrix)
        requires
            self.wf(),
        ensures
            out.wf(),
            out.ncols() == self.ncols(),
            out@ == self@,
    {
        let data = self.data.clone();
        assert(data@ =~= self.data@);
        Matrix { rows: self.rows, cols: self.cols, data }
    }

    fn swap_rows(&mut self, a: usize, b: usize)
        requires
            old(self).wf(),
            a < old(self)@.len(),
            b < old(self)@.len(),
        ensures
            final(self).wf(),
            final(self).ncols() == old(self).ncols(),
            final(self)@ == old(self)@.update(a as int, old(self)@[b as int]).update(
                b as int,
                old(self)@[a as int],
            ),
    {
        let ghost start = self@;
        let mut col: usize = 0;
        while col < self.cols
            invariant
                self.wf(),
                self.ncols() == start[0].len(),
                self@.len() == start.len(),
                shaped(start, self.ncols()),
                a < start.len(),
                b < start.len(),
                col <= self.ncols(),
                forall|r: int, c: int|
                    0 <= r < start.len() && 0 <= c < self.ncols() ==> #[trigger] self@[r][c] == if c
                        < col && r == a {
                        start[b as int][c]
                    } else if c < col && r == b {
                        start[a as int][c]
                    } else {
                        start[r][c]
                    },
            decreases self.ncols() - col,
        {
            let va = self.get(a, col);
            let vb = self.get(b, col);
            self.set(a, col, vb);
            self.set(b, col, va);
            col = col + 1;
        }
        assert(self@ =~~= start.update(a as int, start[b as int]).update(b as int, start[a as int]));
    }

    fn scale_row(&mut self, row: usize, factor: u8)
        requires
            old(self).wf(),
            row < old(self)@.len(),
        ensures
            final(self).wf(),
            final(self).ncols() == old(self).ncols(),
            final(self)@ == old(self)@.update(row as int, scale_seq(old(self)@[row as int], factor)),
    {
        let ghost start = self@;
        let mut col: usize = 0;
        while col < self.cols
            invariant
                self.wf(),
                self.ncols() == start[row as int].len(),
                self@.len() == start.len(),
                shaped(start, self.ncols()),
                row < start.len(),
                col <= self.ncols(),
                forall|r: int, c: int|
                    0 <= r < start.len() && 0 <= c < self.ncols() ==> #[trigger] self@[r][c] == if r
                        == row && c < col {
                        gf_mul(start[r][c], factor)
                    } else {
                        start[r][c]
                    },
            decreases self.ncols() - col,
        {
            let v = self.get(row, col);
            let scaled = crate::gf256::mul(v, factor);
            self.set(row, col, scaled);
            col = col + 1;
        }
        assert(self@ =~~= start.update(row as int, scale_seq(start[row as int], factor)));
    }

    /// `row_dst += row_src * factor` (GF(2^8) addition is XOR).
    fn add_scaled_row(&mut self, dst: usize, src: usize, factor: u8)
        requires
            old(self).wf(),
            dst < old(self)@.len(),
            src < old(self)@.len(),
            dst != src,
        ensures
            final(self).wf(),
            final(self).ncols() == old(self).ncols(),
            final(self)@ == old(self)@.update(
                dst as int,
                add_scaled_seq(old(self)@[dst as int], old(self)@[src as int], factor),
            ),
    {
        let ghost start = self@;
        let mut col: usize = 0;
        while col < self.cols
            invariant
                self.wf(),
                self.ncols() == start[dst as int].len(),
                self@.len() == start.len(),
                shaped(start, self.ncols()),
                dst < start.len(),
                src < start.len(),
                dst != src,
                col <= self.ncols(),
                forall|r: int, c: int|
                    0 <= r < start.len() && 0 <= c < self.ncols() ==> #[trigger] self@[r][c] == if r
                        == dst && c < col {
                        (start[r][c] ^ gf_mul(start[src as int][c], factor)) as u8
                    } else {
                        start[r][c]
                    },
            decreases self.ncols() - col,
        {
            let addend = crate::gf256::mul(self.get(src, col), factor);
            let existing = self.get(dst, col);
            self.set(dst, col, existing ^ addend);
            col = col + 1;
        }
        assert(self@ =~~= start.update(
            dst as int,
            add_scaled_seq(start[dst as int], start[src as int], factor),
        ));
    }
}

/// Row `r` of the identity, dotted with any matrix, is row `r` of it.
proof fn lemma_dot_n_identity_row(m: Seq<Seq<u8>>, n: nat, r: int, c: int)
    requires
        0 <= r < n,
        0 <= c < n,
        m.len() == n,
        shaped(m, n),
    ensures
        dot(identity_model(n)[r], m, c) == m[r][c],
{
    lemma_dot_n_unit(identity_model(n)[r], m, r, c, n);
}

proof fn lemma_dot_n_unit(x: Seq<u8>, m: Seq<Seq<u8>>, r: int, c: int, upto: nat)
    requires
        upto <= x.len(),
        0 <= r < x.len(),
        forall|k: int| 0 <= k < x.len() ==> #[trigger] x[k] == if k == r {
            1u8
        } else {
            0u8
        },
    ensures
        dot_n(x, m, c, upto) == if r < upto {
            m[r][c]
        } else {
            0u8
        },
    decreases upto,
{
    if upto > 0 {
        let k = (upto - 1) as int;
        lemma_dot_n_unit(x, m, r, c, (upto - 1) as nat);
        lemma_mul_zero_one(m[k][c]);
        let prev = dot_n(x, m, c, (upto - 1) as nat);
        let v = m[k][c];
        assert(prev ^ 0u8 == prev) by (bit_vector);
        assert(0u8 ^ v == v) by (bit_vector);
    }
}

/// The `n x k` Vandermonde matrix at the points `0, 1, ..., n - 1`.
fn vandermonde_matrix(n: usize, k: usize) -> (v: Matrix)
    requires
        n <= 255,
        k <= 255,
    ensures
        v.wf(),
        v.ncols() == k,
        v@ == vandermonde(generator_points(n as nat), k as nat),
{
    proof {
        assert(n * k <= 255 * 255) by (nonlinear_arith)
            requires
                n <= 255,
                k <= 255,
        ;
    }
    let mut v = Matrix::zeros(n, k);
    let mut i: usize = 0;
    while i < n
        invariant
            n <= 255,
            i <= n,
            k <= 255,
            v.wf(),
            v.ncols() == k,
            v@.len() == n,
            forall|r: int, c: int|
                0 <= r < n && 0 <= c < k ==> #[trigger] v@[r][c] == if r < i {
                    gf_pow(r as u8, c as nat)
                } else {
                    0u8
                },
        decreases n - i,
    {
        let mut j: usize = 0;
        while j < k
            invariant
                n <= 255,
                i < n,
                j <= k,
                k <= 255,
                v.wf(),
                v.ncols() == k,
                v@.len() == n,
                forall|r: int, c: int|
                    0 <= r < n && 0 <= c < k ==> #[trigger] v@[r][c] == if r < i || (r == i && c
                        < j) {
                        gf_pow(r as u8, c as nat)
                    } else {
                        0u8
                    },
            decreases k - j,
        {
            let x = crate::gf256::pow(i as u8, j as u32);
            v.set(i, j, x);
            j = j + 1;
        }
        i = i + 1;
    }
    assert(v@ =~~= vandermonde(generator_points(n as nat), k as nat));
    v
}

proof fn lemma_generator_points_distinct(n: nat)
    requires
        n <= 256,
    ensures
        distinct_points(generator_points(n)),
{
    let p = generator_points(n);
    assert forall|i: int, j: int| 0 <= i < p.len() && 0 <= j < p.len() && i != j implies #[trigger] p[i]
        != #[trigger] p[j] by {
        assert(p[i] == i as u8 && p[j] == j as u8);
    }
}

/// The systematic `(data_shards + parity_shards) x data_shards` generator:
/// the Vandermonde matrix at points `0, 1, ..., n - 1` times the inverse of
/// its top block. Its top `data_shards` rows are the identity, and any
/// `data_shards` of its rows form a nonsingular matrix, which is what lets
/// any `data_shards` shards rebuild the data.
pub fn generator_matrix(data_shards: usize, parity_shards: usize) -> (g: Matrix)
    requires
        data_shards + parity_shards <= 255,
    ensures
        g.wf(),
        g.ncols() == data_shards,
        g@.len() == data_shards + parity_shards,
        g@ == generator_model(data_shards as nat, parity_shards as nat),
        forall|i: int, j: int|
            0 <= i < data_shards && 0 <= j < data_shards ==> #[trigger] g@[i][j] == if i == j {
                1u8
            } else {
                0u8
            },
        forall|rows: Seq<usize>|
            #[trigger] row_choice(rows, data_shards as nat, (data_shards + parity_shards) as nat)
                ==> nonsingular(select_model(g@, rows), data_shards as nat),
{
    let k = data_shards;
    let n = data_shards + parity_shards;
    proof {
        assert(n * k <= 255 * 255) by (nonlinear_arith)
            requires
                n <= 255,
                k <= n,
        ;
        assert(k * k <= 255 * 255) by (nonlinear_arith)
            requires
                k <= 255,
        ;
    }
    let v = vandermonde_matrix(n, k);
    let top = vandermonde_matrix(k, k);
    let ghost tp = top@;
    let ghost vm = v@;
    proof {
        lemma_generator_points_distinct(k as nat);
        lemma_vandermonde_nonsingular(generator_points(k as nat));
    }
    let t = match top.invert() {
        Some(t) => t,
        None => {
            proof {
                assert(false);
            }
            return v;
        },
    };
    let g = v.mul(&t);
    proof {
        let kk = k as nat;
        assert(is_inverse(t@, tp, kk));
        lemma_inverse_unique(t@, top_inverse(kk), tp, kk);
        assert(g@ == generator_model(kk, parity_shards as nat));
        assert forall|i: int, j: int| 0 <= i < k && 0 <= j < k implies #[trigger] g@[i][j] == if i
            == j {
            1u8
        } else {
            0u8
        } by {
            assert(vm[i] =~= tp[i]);
            assert(mat_mul(tp, t@, kk)[i][j] == identity_model(kk)[i][j]);
        }
        assert forall|rows: Seq<usize>| #[trigger] row_choice(rows, kk, n as nat) implies nonsingular(
            select_model(g@, rows),
            kk,
        ) by {
            let pts = Seq::new(kk, |r: int| rows[r] as u8);
            assert(distinct_points(pts)) by {
                assert forall|a: int, b: int| 0 <= a < pts.len() && 0 <= b < pts.len() && a != b implies #[trigger] pts[a]
                    != #[trigger] pts[b] by {
                    assert(rows[a] != rows[b]);
                    assert(rows[a] < 255 && rows[b] < 255);
                }
            }
            lemma_vandermonde_nonsingular(pts);
            let vs = vandermonde(pts, kk);
            assert forall|r: int, c: int| 0 <= r < kk && 0 <= c < kk implies #[trigger] vs[r][c]
                == vm[rows[r] as int][c] by {
                assert(rows[r] < n);
            }
            assert forall|r: int| 0 <= r < kk implies #[trigger] vs[r] == vm[rows[r] as int] by {
                assert(vs[r] =~= vm[rows[r] as int]);
            }
            lemma_left_inverse_nonsingular(t@, tp, kk);
            lemma_product_nonsingular(vs, t@, kk);
            assert(select_model(g@, rows) =~~= mat_mul(vs, t@, kk));
        }
    }
    g
}

} // verus!
