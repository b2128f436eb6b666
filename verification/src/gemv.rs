//! Products of packed weights with quantised activations: the exact integer sums of a block, and how
//! rows are grouped. Scales are the caller's.
use crate::amx::{groups, least};
use crate::codec::{block_q, q_in, Codec, STRIP};
use vstd::prelude::*;

verus! {

/// Rows of activations per pass over the weights.
pub const MAX_M: usize = 8;

/// The sum over the first `n` columns of a block: the weights of row `r` times the activations.
pub open spec fn dot(blk: Seq<u8>, c: Codec, r: int, x: Seq<i8>, n: int) -> int
    decreases n,
{
    if n <= 0 { 0 } else { dot(blk, c, r, x, n - 1) + q_in(blk, c, r, n - 1) * x[n - 1] }
}

/// The sums of the 16 rows of a block.
pub fn block_dots(blk: &[u8], c: Codec, x: &[i8]) -> (d: Vec<i32>)
    requires
        c.aligned(),
        c.kb <= 0x1_0000,
        blk@.len() >= c.block_size(),
        x@.len() >= c.kb,
    ensures
        d@.len() == 16,
        forall|r: int| 0 <= r < 16 ==> #[trigger] d@[r] == dot(blk@, c, r, x@, c.kb as int),
{
    let mut d: Vec<i32> = Vec::new();
    let mut r: usize = 0;
    while r < STRIP
        invariant
            c.aligned(),
            c.kb <= 0x1_0000,
            blk@.len() >= c.block_size(),
            x@.len() >= c.kb,
            r <= 16,
            d@.len() == r,
            forall|i: int| 0 <= i < r ==> #[trigger] d@[i] == dot(blk@, c, i, x@, c.kb as int),
        decreases 16 - r,
    {
        let mut sum: i32 = 0;
        let mut kk: usize = 0;
        while kk < c.kb
            invariant
                c.aligned(),
                c.kb <= 0x1_0000,
                blk@.len() >= c.block_size(),
                x@.len() >= c.kb,
                r < 16,
                kk <= c.kb,
                sum == dot(blk@, c, r as int, x@, kk as int),
                -32640 * kk <= sum <= 32640 * kk,
            decreases c.kb - kk,
        {
            let q: u32 = block_q(blk, c, r, kk);
            let v: i8 = x[kk];
            assert(-32640 <= q * v <= 32640) by (nonlinear_arith)
                requires
                    0 <= q <= 255,
                    -128 <= v <= 127,
            ;
            sum = sum + (q as i32) * (v as i32);
            kk = kk + 1;
        }
        d.push(sum);
        r = r + 1;
    }
    d
}

/// How many rows of activations a pass takes: half as many where rows come in twos.
pub fn rows_per_pass(pair: bool) -> (n: usize)
    ensures
        n == if pair { 4int } else { 8int },
{
    if pair { MAX_M / 2 } else { MAX_M }
}

/// The groups that `n` rows are taken in, `size` at a time.
pub fn row_groups(n: usize, size: usize) -> (v: Vec<(usize, usize)>)
    requires
        size > 0,
    ensures
        v@.len() == groups(n as int, size as int),
        forall|i: int|
            0 <= i < v@.len() ==> (#[trigger] v@[i]).0 == i * size && v@[i].1 == least((i + 1) * size, n as int),
{
    let mut v: Vec<(usize, usize)> = Vec::new();
    let mut at: usize = 0;
    let ghost mut k: int = 0;
    proof {
        assert(0 * size == 0) by (nonlinear_arith);
    }
    while at < n
        invariant
            size > 0,
            0 <= k,
            v@.len() == k,
            at == least(k * size, n as int),
            k * size < n + size,
            forall|i: int|
                0 <= i < k ==> (#[trigger] v@[i]).0 == i * size && v@[i].1 == least((i + 1) * size, n as int),
        decreases n - at,
    {
        let end: usize = if n - at < size { n } else { at + size };
        v.push((at, end));
        proof {
            assert((k + 1) * size == k * size + size) by (nonlinear_arith);
            k = k + 1;
        }
        at = end;
    }
    proof {
        vstd::arithmetic::div_mod::lemma_fundamental_div_mod_converse(
            n + size - 1,
            size as int,
            k,
            n + size - 1 - k * size,
        );
    }
    v
}

/// Every row is in one group, and in no other.
pub proof fn law_every_row_is_in_one_group(n: int, size: int, row: int, i: int)
    requires
        size > 0,
        0 <= row < n,
        0 <= i < groups(n, size),
    ensures
        0 <= row / size < groups(n, size),
        i * size <= row < least((i + 1) * size, n) <==> i == row / size,
{
    vstd::arithmetic::div_mod::lemma_fundamental_div_mod(row, size);
    vstd::arithmetic::div_mod::lemma_mod_bound(row, size);
    vstd::arithmetic::div_mod::lemma_div_pos_is_pos(row, size);
    vstd::arithmetic::div_mod::lemma_fundamental_div_mod(n + size - 1, size);
    vstd::arithmetic::div_mod::lemma_mod_bound(n + size - 1, size);
    let q = row / size;
    let g = groups(n, size);
    vstd::arithmetic::mul::lemma_mul_is_commutative(size, q);
    vstd::arithmetic::mul::lemma_mul_is_commutative(size, g);
    assert(q < g) by (nonlinear_arith)
        requires
            q * size <= row,
            row < n,
            n <= g * size,
            size > 0,
    ;
    assert((q + 1) * size == q * size + size) by (nonlinear_arith);
    assert((i + 1) * size == i * size + size) by (nonlinear_arith);
    if i * size <= row < (i + 1) * size {
        vstd::arithmetic::div_mod::lemma_fundamental_div_mod_converse(row, size, i, row - i * size);
    }
}

/// The sum of a block is what each weight contributes by itself: with one activation that is not
/// zero, its product with the weight of that row and column.
pub proof fn law_one_activation_meets_its_weight(
    blk: Seq<u8>,
    c: Codec,
    r: int,
    x: Seq<i8>,
    j: int,
    n: int,
)
    requires
        0 <= j,
        0 <= n,
        forall|i: int| 0 <= i < n && i != j ==> x[i] == 0,
    ensures
        dot(blk, c, r, x, n) == if j < n { q_in(blk, c, r, j) * x[j] } else { 0 },
    decreases n,
{
    if n > 0 {
        law_one_activation_meets_its_weight(blk, c, r, x, j, n - 1);
        let w = q_in(blk, c, r, n - 1);
        assert(w * 0 == 0);
    }
}

/// The sum of a block is additive in the activations.
pub proof fn law_sums_of_activations_add_up(
    blk: Seq<u8>,
    c: Codec,
    r: int,
    x: Seq<i8>,
    y: Seq<i8>,
    z: Seq<i8>,
    n: int,
)
    requires
        forall|i: int| 0 <= i < n ==> z[i] == #[trigger] x[i] + y[i],
    ensures
        dot(blk, c, r, z, n) == dot(blk, c, r, x, n) + dot(blk, c, r, y, n),
    decreases n,
{
    if n > 0 {
        law_sums_of_activations_add_up(blk, c, r, x, y, z, n - 1);
        let w = q_in(blk, c, r, n - 1) as int;
        let (a, b) = (x[n - 1] as int, y[n - 1] as int);
        assert(z[n - 1] == x[n - 1] + y[n - 1]);
        assert(w * (a + b) == w * a + w * b) by (nonlinear_arith);
    }
}

} // verus!
