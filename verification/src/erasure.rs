//! Systematic Reed-Solomon encode/reconstruct: split data into
//! `data_shards` pieces, compute `parity_shards` more from the generator
//! matrix, and recover the original data from the surviving shards.
use crate::matrix::{
    dot, generator_matrix, generator_model, identity_model, nonsingular, row_choice, lemma_dot_unit, lemma_index,
    lemma_index_inj, lemma_mat_mul_assoc, mat_mul, partial_row, select_model, shaped, Matrix,
};
use crate::text::{decimal, push_decimal};
use vstd::prelude::*;
use vstd::string::StringExecFns;

verus! {

/// Errors of the erasure-coding layer.
#[derive(Debug, Clone, PartialEq, Eq)]
pub enum ErasureError {
    /// `encode()` was given zero bytes.
    EmptyData,
    /// `data_shards == 0`, `parity_shards == 0`, or more than 255 shards.
    InvalidParams { data_shards: usize, parity_shards: usize },
    /// A shard slice whose length is not `data_shards + parity_shards`.
    WrongShardCount { expected: usize, got: usize },
    /// Fewer than `data_shards` shards were available.
    TooManyMissingShards { available: usize, needed: usize },
    /// The selected rows of the generator matrix did not invert.
    SingularSubmatrix,
    /// A shard's bytes did not hash to its recorded digest.
    IntegrityMismatch { shard_index: usize },
}

/// How an erasure error is displayed.
pub open spec fn erasure_message(e: ErasureError) -> Seq<char> {
    match e {
        ErasureError::EmptyData => "cannot encode zero bytes"@,
        ErasureError::InvalidParams { data_shards, parity_shards } => "invalid erasure params: data_shards="@
            + decimal(data_shards as nat) + ", parity_shards="@ + decimal(parity_shards as nat)
            + " (need both >= 1 and their sum <= 255)"@,
        ErasureError::WrongShardCount { expected, got } => "expected "@ + decimal(expected as nat)
            + " shard slots, got "@ + decimal(got as nat),
        ErasureError::TooManyMissingShards { available, needed } => "only "@ + decimal(
            available as nat,
        ) + " shards available, need at least "@ + decimal(needed as nat) + " to reconstruct"@,
        ErasureError::SingularSubmatrix => "internal error: selected shard rows produced a singular matrix"@,
        ErasureError::IntegrityMismatch { shard_index } => "shard "@ + decimal(shard_index as nat)
            + " failed its integrity check"@,
    }
}

impl ErasureError {
    /// The error as it is displayed.
    pub fn message(&self) -> (m: String)
        ensures
            m@ == erasure_message(*self),
    {
        match self {
            ErasureError::EmptyData => String::from_str("cannot encode zero bytes"),
            ErasureError::InvalidParams { data_shards, parity_shards } => {
                let mut m = String::from_str("invalid erasure params: data_shards=");
                push_decimal(&mut m, *data_shards as u128);
                m.append(", parity_shards=");
                push_decimal(&mut m, *parity_shards as u128);
                m.append(" (need both >= 1 and their sum <= 255)");
                m
            },
            ErasureError::WrongShardCount { expected, got } => {
                let mut m = String::from_str("expected ");
                push_decimal(&mut m, *expected as u128);
                m.append(" shard slots, got ");
                push_decimal(&mut m, *got as u128);
                m
            },
            ErasureError::TooManyMissingShards { available, needed } => {
                let mut m = String::from_str("only ");
                push_decimal(&mut m, *available as u128);
                m.append(" shards available, need at least ");
                push_decimal(&mut m, *needed as u128);
                m.append(" to reconstruct");
                m
            },
            ErasureError::SingularSubmatrix => String::from_str(
                "internal error: selected shard rows produced a singular matrix",
            ),
            ErasureError::IntegrityMismatch { shard_index } => {
                let mut m = String::from_str("shard ");
                push_decimal(&mut m, *shard_index as u128);
                m.append(" failed its integrity check");
                m
            },
        }
    }
}

/// How many data shards to split into, and how many parity shards to add.
#[derive(Debug, Clone, Copy, PartialEq, Eq)]
pub struct ErasureParams {
    pub data_shards: usize,
    pub parity_shards: usize,
}

impl ErasureParams {
    /// Both counts are positive and there are at most 255 shards in all.
    pub open spec fn valid(self) -> bool {
        &&& self.data_shards >= 1
        &&& self.parity_shards >= 1
        &&& self.data_shards + self.parity_shards <= 255
    }

    pub open spec fn total(self) -> nat {
        (self.data_shards + self.parity_shards) as nat
    }

    /// Validated construction.
    pub fn new(data_shards: usize, parity_shards: usize) -> (r: Result<ErasureParams, ErasureError>)
        ensures
            r matches Ok(p) ==> p.valid() && p.data_shards == data_shards && p.parity_shards
                == parity_shards,
            r is Err <==> !(ErasureParams { data_shards, parity_shards }).valid(),
            r matches Err(e) ==> e == (ErasureError::InvalidParams { data_shards, parity_shards }),
    {
        if data_shards == 0 || parity_shards == 0 || data_shards > 255 || parity_shards > 255
            || data_shards + parity_shards > 255 {
            return Err(ErasureError::InvalidParams { data_shards, parity_shards });
        }
        Ok(ErasureParams { data_shards, parity_shards })
    }

    /// Total shard count: `data_shards + parity_shards`.
    pub fn total_shards(&self) -> (n: usize)
        requires
            self.data_shards + self.parity_shards <= usize::MAX,
        ensures
            n == self.total(),
    {
        self.data_shards + self.parity_shards
    }
}

/// One shard: its position among all shards and its bytes.
#[derive(Debug, Clone, PartialEq, Eq)]
pub struct Shard {
    pub index: usize,
    pub bytes: Vec<u8>,
}

/// Every shard of one encoded input, with what reconstruction needs.
#[derive(Debug, Clone)]
pub struct EncodedData {
    pub params: ErasureParams,
    pub original_len: usize,
    pub shards: Vec<Shard>,
}

/// `ceil(len / k)`: the length of each shard.
pub open spec fn shard_len_for(len: nat, k: nat) -> nat {
    if len % k == 0 {
        len / k
    } else {
        len / k + 1
    }
}

/// Byte `t` of `data`, or zero past its end.
pub open spec fn padded_byte(data: Seq<u8>, t: int) -> u8 {
    if 0 <= t < data.len() {
        data[t]
    } else {
        0u8
    }
}

/// `data` laid out as `k` rows of `l` bytes, zero padded.
pub open spec fn data_matrix(data: Seq<u8>, k: nat, l: nat) -> Seq<Seq<u8>> {
    Seq::new(k, |i: int| Seq::new(l, |c: int| padded_byte(data, i * l + c)))
}

/// The bytes of every shard that encoding `data` produces.
pub open spec fn encoded_shards(params: ErasureParams, data: Seq<u8>) -> Seq<Seq<u8>> {
    let k = params.data_shards as nat;
    let l = shard_len_for(data.len(), k);
    mat_mul(generator_model(k, params.parity_shards as nat), data_matrix(data, k, l), l)
}

/// Every shard that is present carries the bytes that encoding `data`
/// gives at its position.
pub open spec fn consistent_with(params: ErasureParams, shards: Seq<Option<Shard>>, data: Seq<u8>) -> bool {
    &&& shards.len() == params.total()
    &&& forall|i: int|
        0 <= i < shards.len() ==> (#[trigger] shards[i] matches Some(s) ==> s.bytes@
            == encoded_shards(params, data)[i])
}

/// Positions below `upto` that hold a shard, in increasing order.
pub open spec fn present_indices(shards: Seq<Option<Shard>>, upto: nat) -> Seq<usize>
    decreases upto,
{
    if upto == 0 {
        Seq::empty()
    } else {
        let p = present_indices(shards, (upto - 1) as nat);
        if shards[upto - 1] is Some {
            p.push((upto - 1) as usize)
        } else {
            p
        }
    }
}

/// How many shards are present.
pub open spec fn present_count(shards: Seq<Option<Shard>>) -> nat {
    present_indices(shards, shards.len()).len()
}


/// Byte length of the shard at `i`, zero when it is missing.
pub open spec fn shard_len_at(shards: Seq<Option<Shard>>, i: int) -> nat {
    match shards[i] {
        Some(s) => s.bytes@.len(),
        None => 0,
    }
}

/// Every present shard is small enough that a matrix of `total` such rows
/// fits in memory.
pub open spec fn shards_fit(params: ErasureParams, shards: Seq<Option<Shard>>) -> bool {
    forall|i: int|
        0 <= i < shards.len() ==> #[trigger] shard_len_at(shards, i) * params.total() <= usize::MAX
}

proof fn lemma_present_indices(shards: Seq<Option<Shard>>, upto: nat)
    requires
        upto <= shards.len(),
        shards.len() <= usize::MAX,
    ensures
        present_indices(shards, upto).len() <= upto,
        forall|j: int|
            0 <= j < present_indices(shards, upto).len() ==> {
                &&& #[trigger] present_indices(shards, upto)[j] < upto
                &&& shards[present_indices(shards, upto)[j] as int] is Some
            },
        forall|j1: int, j2: int|
            0 <= j1 < j2 < present_indices(shards, upto).len() ==> present_indices(shards, upto)[j1]
                < present_indices(shards, upto)[j2],
    decreases upto,
{
    if upto > 0 {
        lemma_present_indices(shards, (upto - 1) as nat);
    }
}

proof fn lemma_present_prefix(shards: Seq<Option<Shard>>, k: nat, upto: nat)
    requires
        upto <= shards.len(),
        shards.len() <= usize::MAX,
        forall|j: int| 0 <= j < k && j < shards.len() ==> #[trigger] shards[j] is Some,
    ensures
        present_indices(shards, upto).len() >= if upto < k {
            upto
        } else {
            k
        },
        forall|j: int|
            0 <= j < k && j < upto ==> #[trigger] present_indices(shards, upto)[j] == j,
    decreases upto,
{
    if upto > 0 {
        lemma_present_prefix(shards, k, (upto - 1) as nat);
        lemma_present_indices(shards, (upto - 1) as nat);
    }
}

proof fn lemma_shard_len_bounds(len: nat, k: nat)
    requires
        k > 0,
    ensures
        len <= k * shard_len_for(len, k),
        len == 0 ==> shard_len_for(len, k) == 0,
{
    let q = len / k;
    let r = len % k;
    vstd::arithmetic::div_mod::lemma_fundamental_div_mod(len as int, k as int);
    assert(0 <= r < k) by {
        vstd::arithmetic::div_mod::lemma_mod_bound(len as int, k as int);
    }
    if r == 0 {
        assert(len == k * q);
    } else {
        assert(k * (q + 1) == k * q + k) by (nonlinear_arith);
    }
    if len == 0 {
        assert(q == 0);
    }
}

proof fn lemma_mul_le(a: nat, b: nat, c: nat)
    requires
        a <= b,
    ensures
        a * c <= b * c,
{
    assert(a * c <= b * c) by (nonlinear_arith)
        requires
            a <= b,
    ;
}

/// Split `data` into `params.data_shards` zero-padded pieces and compute
/// `params.parity_shards` parity shards from them.
pub fn encode(data: &[u8], params: ErasureParams) -> (r: Result<EncodedData, ErasureError>)
    requires
        params.valid(),
        params.total() * shard_len_for(data@.len(), params.data_shards as nat) <= usize::MAX,
    ensures
        r is Err <==> data@.len() == 0,
        r matches Err(e) ==> e == ErasureError::EmptyData,
        r matches Ok(enc) ==> {
            &&& enc.params == params
            &&& enc.original_len == data@.len()
            &&& enc.shards@.len() == params.total()
            &&& forall|i: int| 0 <= i < enc.shards@.len() ==> (#[trigger] enc.shards@[i]).index == i
            &&& forall|i: int|
                0 <= i < enc.shards@.len() ==> (#[trigger] enc.shards@[i]).bytes@ == encoded_shards(
                    params,
                    data@,
                )[i]
        },
{
    if data.len() == 0 {
        return Err(ErasureError::EmptyData);
    }
    let k = params.data_shards;
    let m = params.parity_shards;
    let n = k + m;
    let len = data.len();
    let shard_len: usize = if len % k == 0 {
        len / k
    } else {
        proof {
            assert(k >= 2);
            assert(len / k <= len / 2) by {
                vstd::arithmetic::div_mod::lemma_div_is_ordered_by_denominator(len as int, 2, k as int);
            }
        }
        len / k + 1
    };
    let ghost l = shard_len as nat;
    proof {
        assert(shard_len == shard_len_for(len as nat, k as nat));
        lemma_mul_le(k as nat, n as nat, l);
        lemma_shard_len_bounds(len as nat, k as nat);
        assert(k * l == l * k) by (nonlinear_arith);
    }
    let mut d = Matrix::zeros(k, shard_len);
    let mut i: usize = 0;
    while i < k
        invariant
            k == params.data_shards,
            k >= 1,
            k * shard_len <= usize::MAX,
            i <= k,
            d.wf(),
            d@.len() == k,
            d.ncols() == shard_len,
            forall|r: int, c: int|
                0 <= r < k && 0 <= c < shard_len ==> #[trigger] d@[r][c] == if r < i {
                    padded_byte(data@, r * shard_len + c)
                } else {
                    0u8
                },
        decreases k - i,
    {
        let mut col: usize = 0;
        while col < shard_len
            invariant
                k == params.data_shards,
                k * shard_len <= usize::MAX,
                i < k,
                col <= shard_len,
                d.wf(),
                d@.len() == k,
                d.ncols() == shard_len,
                forall|r: int, c: int|
                    0 <= r < k && 0 <= c < shard_len ==> #[trigger] d@[r][c] == if r < i || (r == i
                        && c < col) {
                        padded_byte(data@, r * shard_len + c)
                    } else {
                        0u8
                    },
            decreases shard_len - col,
        {
            proof {
                lemma_index(i as int, col as int, k as int, shard_len as int);
            }
            let idx = i * shard_len + col;
            let byte = if idx < data.len() {
                data[idx]
            } else {
                0
            };
            d.set(i, col, byte);
            col = col + 1;
        }
        i = i + 1;
    }
    proof {
        assert(d@ =~~= data_matrix(data@, k as nat, l));
        assert(n * k <= 255 * 255) by (nonlinear_arith)
            requires
                n <= 255,
                k <= 255,
        ;
    }
    let g = generator_matrix(k, m);
    let r = g.mul(&d);
    proof {
        assert(r@ == encoded_shards(params, data@));
    }
    let mut shards: Vec<Shard> = Vec::new();
    let mut row: usize = 0;
    while row < n
        invariant
            n == params.total(),
            row <= n,
            r.wf(),
            r@.len() == n,
            r.ncols() == shard_len,
            r@ == encoded_shards(params, data@),
            shards@.len() == row,
            forall|t: int|
                0 <= t < row ==> #[trigger] shards@[t].index == t && shards@[t].bytes@ == r@[t],
        decreases n - row,
    {
        let mut bytes: Vec<u8> = Vec::new();
        let mut c: usize = 0;
        while c < shard_len
            invariant
                row < n,
                r.wf(),
                r@.len() == n,
                r.ncols() == shard_len,
                c <= shard_len,
                bytes@ == r@[row as int].subrange(0, c as int),
            decreases shard_len - c,
        {
            let v = r.get(row, c);
            bytes.push(v);
            c = c + 1;
            assert(bytes@ =~= r@[row as int].subrange(0, c as int));
        }
        assert(bytes@ =~= r@[row as int]);
        shards.push(Shard { index: row, bytes });
        row = row + 1;
    }
    assert forall|t: int| 0 <= t < shards@.len() implies (#[trigger] shards@[t]).index == t
        && shards@[t].bytes@ == encoded_shards(params, data@)[t] by {
        assert(shards@[t].index == t);
        assert(shards@[t].bytes@ == r@[t]);
    }
    let enc = EncodedData { params, original_len: len, shards };
    Ok(enc)
}

/// Recover the original data from `shards` (one slot per shard position,
/// `None` where a shard is missing), given the byte length recorded at
/// encode time. The first `data_shards` present shards are used.
pub fn reconstruct(params: ErasureParams, shards: &[Option<Shard>], original_len: usize) -> (r:
    Result<Vec<u8>, ErasureError>)
    requires
        params.valid(),
        shards_fit(params, shards@),
    ensures
        shards@.len() != params.total() ==> r == Err::<Vec<u8>, ErasureError>(
            ErasureError::WrongShardCount { expected: params.total() as usize, got: shards@.len() as usize },
        ),
        shards@.len() == params.total() && present_count(shards@) < params.data_shards ==> r
            == Err::<Vec<u8>, ErasureError>(
            ErasureError::TooManyMissingShards {
                available: present_count(shards@) as usize,
                needed: params.data_shards,
            },
        ),
        shards@.len() == params.total() && present_count(shards@) >= params.data_shards ==> r is Ok,
        r matches Ok(out) ==> {
            let first = present_indices(shards@, shards@.len())[0] as int;
            let full = (params.data_shards * shard_len_at(shards@, first)) as nat;
            out@.len() == if original_len <= full {
                original_len as nat
            } else {
                full
            }
        },
        r matches Ok(out) ==> forall|data: Seq<u8>|
            consistent_with(params, shards@, data) && data.len() == original_len ==> out@ == data,
{
    let k = params.data_shards;
    let n = params.data_shards + params.parity_shards;
    if shards.len() != n {
        return Err(ErasureError::WrongShardCount { expected: n, got: shards.len() });
    }
    let mut available: Vec<usize> = Vec::new();
    let mut i: usize = 0;
    while i < shards.len()
        invariant
            i <= shards@.len(),
            available@ == present_indices(shards@, i as nat),
        decreases shards@.len() - i,
    {
        if shards[i].is_some() {
            available.push(i);
        }
        i = i + 1;
    }
    proof {
        lemma_present_indices(shards@, shards@.len());
    }
    if available.len() < k {
        proof {
            if forall|j: int| 0 <= j < k ==> #[trigger] shards@[j] is Some {
                lemma_present_prefix(shards@, k as nat, shards@.len());
            }
        }
        return Err(ErasureError::TooManyMissingShards { available: available.len(), needed: k });
    }
    let ghost all_available = available@;
    available.truncate(k);
    let chosen = available;
    proof {
        assert(chosen@ == all_available.subrange(0, k as int));
    }
    let shard_len: usize = match &shards[chosen[0]] {
        Some(s) => s.bytes.len(),
        None => 0,
    };
    proof {
        assert(shard_len == shard_len_at(shards@, chosen@[0] as int));
        assert(shard_len * n <= usize::MAX);
        lemma_mul_le(k as nat, n as nat, shard_len as nat);
        assert(k * shard_len == shard_len * k) by (nonlinear_arith);
        assert(n * k <= 255 * 255) by (nonlinear_arith)
            requires
                n <= 255,
                k <= 255,
        ;
        assert(k * k <= 255 * 255) by (nonlinear_arith)
            requires
                k <= 255,
        ;
    }
    let g = generator_matrix(k, params.parity_shards);
    let s = g.select_rows(chosen.as_slice());
    let s_inv = match s.invert() {
        Some(m) => m,
        None => {
            proof {
                assert(row_choice(chosen@, k as nat, n as nat)) by {
                    assert forall|a: int, b: int| 0 <= a < k && 0 <= b < k && a != b implies #[trigger] chosen@[a]
                        != #[trigger] chosen@[b] by {
                        assert(chosen@[a] == all_available[a] && chosen@[b] == all_available[b]);
                    }
                    assert forall|a: int| 0 <= a < k implies #[trigger] chosen@[a] < n by {
                        assert(chosen@[a] == all_available[a]);
                    }
                }
                assert(nonsingular(s@, k as nat));
            }
            return Err(ErasureError::SingularSubmatrix);
        },
    };
    let mut a = Matrix::zeros(k, shard_len);
    let mut row: usize = 0;
    while row < k
        invariant
            k == params.data_shards,
            n == params.total(),
            shards@.len() == n,
            chosen@.len() == k,
            forall|j: int| 0 <= j < k ==> #[trigger] chosen@[j] < n,
            forall|j: int| 0 <= j < k ==> shards@[#[trigger] chosen@[j] as int] is Some,
            row <= k,
            a.wf(),
            a@.len() == k,
            a.ncols() == shard_len,
            forall|rr: int, c: int|
                0 <= rr < k && 0 <= c < shard_len ==> #[trigger] a@[rr][c] == if rr < row && c
                    < shard_len_at(shards@, chosen@[rr] as int) {
                    shards@[chosen@[rr] as int]->Some_0.bytes@[c]
                } else {
                    0u8
                },
        decreases k - row,
    {
        let idx = chosen[row];
        match &shards[idx] {
            Some(sh) => {
                let mut col: usize = 0;
                while col < shard_len && col < sh.bytes.len()
                    invariant
                        k == params.data_shards,
                        row < k,
                        idx == chosen@[row as int],
                        shards@[idx as int] == Some(*sh),
                        col <= shard_len,
                        col <= sh.bytes@.len(),
                        a.wf(),
                        a@.len() == k,
                        a.ncols() == shard_len,
                        forall|rr: int, c: int|
                            0 <= rr < k && 0 <= c < shard_len ==> #[trigger] a@[rr][c] == if (rr
                                < row && c < shard_len_at(shards@, chosen@[rr] as int)) || (rr
                                == row && c < col) {
                                shards@[chosen@[rr] as int]->Some_0.bytes@[c]
                            } else {
                                0u8
                            },
                    decreases shard_len - col,
                {
                    a.set(row, col, sh.bytes[col]);
                    col = col + 1;
                }
                assert(shard_len_at(shards@, chosen@[row as int] as int) == sh.bytes@.len());
                assert(col == shard_len || col == sh.bytes@.len());
                assert forall|rr: int, c: int| 0 <= rr < k && 0 <= c < shard_len implies #[trigger] a@[rr][c]
                    == if rr < row + 1 && c < shard_len_at(shards@, chosen@[rr] as int) {
                    shards@[chosen@[rr] as int]->Some_0.bytes@[c]
                } else {
                    0u8
                } by {
                    if rr == row {
                        assert(chosen@[rr] == idx);
                    }
                }
            },
            None => {},
        }
        row = row + 1;
    }
    let d = s_inv.mul(&a);
    let mut out: Vec<u8> = Vec::new();
    let mut i: usize = 0;
    while i < k
        invariant
            k == params.data_shards,
            k * shard_len <= usize::MAX,
            i <= k,
            d.wf(),
            d@.len() == k,
            d.ncols() == shard_len,
            out@.len() == i * shard_len,
            forall|i2: int, c2: int|
                0 <= i2 < i && 0 <= c2 < shard_len ==> #[trigger] out@[i2 * shard_len + c2]
                    == d@[i2][c2],
        decreases k - i,
    {
        let mut col: usize = 0;
        while col < shard_len
            invariant
                k == params.data_shards,
                k * shard_len <= usize::MAX,
                i < k,
                col <= shard_len,
                d.wf(),
                d@.len() == k,
                d.ncols() == shard_len,
                out@.len() == i * shard_len + col,
                forall|i2: int, c2: int|
                    0 <= i2 < k && 0 <= c2 < shard_len && (i2 < i || (i2 == i && c2 < col))
                        ==> #[trigger] out@[i2 * shard_len + c2] == d@[i2][c2],
            decreases shard_len - col,
        {
            proof {
                lemma_index(i as int, col as int, k as int, shard_len as int);
            }
            let v = d.get(i, col);
            let ghost before = out@;
            out.push(v);
            proof {
                assert forall|i2: int, c2: int|
                    0 <= i2 < k && 0 <= c2 < shard_len && (i2 < i || (i2 == i && c2 < col + 1))
                        implies #[trigger] out@[i2 * shard_len + c2] == d@[i2][c2] by {
                    if i2 == i && c2 == col {
                    } else {
                        if i2 * shard_len + c2 == i * shard_len + col {
                            lemma_index_inj(i2, c2, i as int, col as int, shard_len as int);
                        }
                        if i2 < i {
                            lemma_index(i2, c2, i as int, shard_len as int);
                        }
                        assert(i2 * shard_len + c2 < before.len());
                    }
                }
            }
            col = col + 1;
        }
        proof {
            assert((i + 1) * shard_len == i * shard_len + shard_len) by (nonlinear_arith);
        }
        i = i + 1;
    }
    let ghost full = out@;
    out.truncate(original_len);
    proof {
        assert(full.len() == k * shard_len);
        assert forall|data: Seq<u8>|
            consistent_with(params, shards@, data) && data.len() == original_len implies out@
            == data by {
            lemma_reconstruct_sound(params, shards@, data, chosen@, s@, s_inv@, a@, d@, shard_len as nat);
            lemma_shard_len_bounds(data.len(), k as nat);
            assert(out@.len() == data.len());
            assert forall|t: int| 0 <= t < data.len() implies out@[t] == data[t] by {
                let l = shard_len as int;
                if l == 0 {
                    assert(k * l == 0) by (nonlinear_arith)
                        requires
                            l == 0,
                    ;
                } else {
                    let q = t / l;
                    let rm = t % l;
                    vstd::arithmetic::div_mod::lemma_fundamental_div_mod(t, l);
                    vstd::arithmetic::div_mod::lemma_mod_bound(t, l);
                    assert(q * l == l * q) by (nonlinear_arith);
                    assert(0 <= q) by (nonlinear_arith)
                        requires
                            t >= 0,
                            l > 0,
                            t == l * q + rm,
                            rm < l,
                    ;
                    assert(q < k) by (nonlinear_arith)
                        requires
                            t < k * l,
                            l > 0,
                            t == l * q + rm,
                            0 <= rm,
                    ;
                    assert(full[q * l + rm] == d@[q][rm]);
                    assert(t == q * l + rm);
                }
            }
            assert(out@ =~= data);
        }
    }
    Ok(out)
}

/// The reconstruction algebra: the rows the chosen shards carry are the
/// chosen generator rows times the data matrix, so a left inverse of the
/// chosen generator rows recovers the data matrix.
proof fn lemma_reconstruct_sound(
    params: ErasureParams,
    shards: Seq<Option<Shard>>,
    data: Seq<u8>,
    chosen: Seq<usize>,
    s: Seq<Seq<u8>>,
    s_inv: Seq<Seq<u8>>,
    a: Seq<Seq<u8>>,
    d: Seq<Seq<u8>>,
    l: nat,
)
    requires
        params.valid(),
        consistent_with(params, shards, data),
        chosen.len() == params.data_shards,
        chosen.len() > 0,
        forall|j: int| 0 <= j < chosen.len() ==> #[trigger] chosen[j] < params.total(),
        forall|j: int| 0 <= j < chosen.len() ==> shards[#[trigger] chosen[j] as int] is Some,
        l == shard_len_at(shards, chosen[0] as int),
        s == select_model(generator_model(params.data_shards as nat, params.parity_shards as nat), chosen),
        s_inv.len() == params.data_shards,
        shaped(s_inv, params.data_shards as nat),
        mat_mul(s_inv, s, params.data_shards as nat) == identity_model(params.data_shards as nat),
        a.len() == params.data_shards,
        forall|rr: int, c: int|
            0 <= rr < params.data_shards && 0 <= c < l ==> #[trigger] a[rr][c] == if c
                < shard_len_at(shards, chosen[rr] as int) {
                shards[chosen[rr] as int]->Some_0.bytes@[c]
            } else {
                0u8
            },
        shaped(a, l),
        d == mat_mul(s_inv, a, l),
    ensures
        l == shard_len_for(data.len(), params.data_shards as nat),
        forall|i: int, c: int|
            0 <= i < params.data_shards && 0 <= c < l ==> #[trigger] d[i][c] == padded_byte(
                data,
                i * l + c,
            ),
{
    let k = params.data_shards as nat;
    let g = generator_model(k, params.parity_shards as nat);
    let l2 = shard_len_for(data.len(), k);
    let dm = data_matrix(data, k, l2);
    let enc = encoded_shards(params, data);
    assert(shards[chosen[0] as int] matches Some(s0) && s0.bytes@ == enc[chosen[0] as int]);
    assert(l == l2);
    assert forall|rr: int, c: int| 0 <= rr < k && 0 <= c < l implies #[trigger] a[rr][c] == dot(
        s[rr],
        dm,
        c,
    ) by {
        let idx = chosen[rr] as int;
        assert(shards[idx] matches Some(sh) && sh.bytes@ == enc[idx]);
        assert(enc[idx][c] == dot(g[idx], dm, c));
    }
    assert(a =~~= mat_mul(s, dm, l));
    assert forall|i: int, c: int| 0 <= i < k && 0 <= c < l implies #[trigger] d[i][c] == padded_byte(
        data,
        i * l + c,
    ) by {
        lemma_mat_mul_assoc(s_inv[i], s, dm, k, l, c);
        let y = partial_row(s_inv[i], s, k, s_inv[i].len());
        assert forall|j: int| 0 <= j < k implies #[trigger] y[j] == if j == i {
            1u8
        } else {
            0u8
        } by {
            assert(mat_mul(s_inv, s, k)[i][j] == identity_model(k)[i][j]);
        }
        lemma_dot_unit(y, dm, i, c);
    }
}

/// What `encode` promises of its result.
pub open spec fn is_encoding_of(enc: EncodedData, params: ErasureParams, data: Seq<u8>) -> bool {
    &&& enc.params == params
    &&& enc.original_len == data.len()
    &&& enc.shards@.len() == params.total()
    &&& forall|i: int|
        0 <= i < enc.shards@.len() ==> (#[trigger] enc.shards@[i]).bytes@ == encoded_shards(
            params,
            data,
        )[i]
}

/// Any selection of an encoding's shards, with the rest missing, is
/// consistent with the encoded data; so `reconstruct` on it can only
/// return that data.
pub proof fn lemma_surviving_shards_are_consistent(
    enc: EncodedData,
    params: ErasureParams,
    data: Seq<u8>,
    holders: Seq<Option<Shard>>,
)
    requires
        is_encoding_of(enc, params, data),
        holders.len() == params.total(),
        forall|i: int|
            0 <= i < holders.len() ==> (#[trigger] holders[i] matches Some(s) ==> s.bytes@
                == enc.shards@[i].bytes@),
    ensures
        consistent_with(params, holders, data),
{
    assert forall|i: int| 0 <= i < holders.len() implies (#[trigger] holders[i] matches Some(s)
        ==> s.bytes@ == encoded_shards(params, data)[i]) by {
        if holders[i] is Some {
            assert(enc.shards@[i].bytes@ == encoded_shards(params, data)[i]);
        }
    }
}

/// Recompute shard `index`'s bytes from the zero-padded original data:
/// generator row `index` times the `data_shards x shard_len` data matrix.
pub(crate) fn regenerate_shard(
    params: ErasureParams,
    original_data: &[u8],
    shard_len: usize,
    index: usize,
) -> (bytes: Vec<u8>)
    requires
        params.valid(),
        index < params.total(),
        params.total() * shard_len <= usize::MAX,
    ensures
        bytes@ == encoded_rows_of(params, original_data@, shard_len as nat)[index as int],
{
    let k = params.data_shards;
    proof {
        assert((k + params.parity_shards) * k <= 255 * 255) by (nonlinear_arith)
            requires
                k + params.parity_shards <= 255,
                k <= 255,
        ;
        lemma_mul_le(k as nat, params.total(), shard_len as nat);
        assert(k * shard_len == shard_len * k) by (nonlinear_arith);
        assert(params.total() * shard_len == shard_len * params.total()) by (nonlinear_arith);
    }
    let g = generator_matrix(k, params.parity_shards);
    let row = g.row(index);
    let mut d = Matrix::zeros(k, shard_len);
    let mut i: usize = 0;
    while i < k
        invariant
            k == params.data_shards,
            k * shard_len <= usize::MAX,
            i <= k,
            d.wf(),
            d@.len() == k,
            d.ncols() == shard_len,
            forall|r: int, c: int|
                0 <= r < k && 0 <= c < shard_len ==> #[trigger] d@[r][c] == if r < i {
                    padded_byte(original_data@, r * shard_len + c)
                } else {
                    0u8
                },
        decreases k - i,
    {
        let mut col: usize = 0;
        while col < shard_len
            invariant
                k == params.data_shards,
                k * shard_len <= usize::MAX,
                i < k,
                col <= shard_len,
                d.wf(),
                d@.len() == k,
                d.ncols() == shard_len,
                forall|r: int, c: int|
                    0 <= r < k && 0 <= c < shard_len ==> #[trigger] d@[r][c] == if r < i || (r == i
                        && c < col) {
                        padded_byte(original_data@, r * shard_len + c)
                    } else {
                        0u8
                    },
            decreases shard_len - col,
        {
            proof {
                lemma_index(i as int, col as int, k as int, shard_len as int);
            }
            let idx = i * shard_len + col;
            let byte = if idx < original_data.len() {
                original_data[idx]
            } else {
                0
            };
            d.set(i, col, byte);
            col = col + 1;
        }
        i = i + 1;
    }
    proof {
        assert(d@ =~~= data_matrix(original_data@, k as nat, shard_len as nat));
        assert(1 * shard_len == shard_len);
    }
    let r = row.mul(&d);
    let mut bytes: Vec<u8> = Vec::new();
    let mut c: usize = 0;
    while c < shard_len
        invariant
            r.wf(),
            r@.len() == 1,
            r.ncols() == shard_len,
            c <= shard_len,
            bytes@ == r@[0].subrange(0, c as int),
        decreases shard_len - c,
    {
        let v = r.get(0, c);
        bytes.push(v);
        c = c + 1;
        assert(bytes@ =~= r@[0].subrange(0, c as int));
    }
    assert(bytes@ =~= r@[0]);
    bytes
}

/// The shard rows that the generator gives for `data` laid out in rows of
/// `l` bytes.
pub open spec fn encoded_rows_of(params: ErasureParams, data: Seq<u8>, l: nat) -> Seq<Seq<u8>> {
    let k = params.data_shards as nat;
    mat_mul(generator_model(k, params.parity_shards as nat), data_matrix(data, k, l), l)
}

} // verus!
