//! Quantised activations: rows of signed bytes with a scale and a sum per block of columns. The
//! scales are the caller's.
use vstd::prelude::*;

verus! {

/// Quantised rows, one behind another: `q[m * k + i]`, and per block `scale[m * nb + b]` and
/// `sum[m * nb + b]`. With `pair`, rows come in twos: a coarse row and what it leaves out.
#[derive(Clone, Debug)]
pub struct QAct<F> {
    pub m: usize,
    pub k: usize,
    pub kb: usize,
    pub q: Vec<i8>,
    pub scale: Vec<F>,
    pub sum: Vec<i32>,
    pub pair: bool,
    /// Rows that hold data.
    pub m_used: usize,
}

/// A number cut off to what a signed byte holds.
pub open spec fn clamped(v: i32) -> i8 {
    if v > 127 {
        127
    } else if v < -128 {
        i8::MIN
    } else {
        v as i8
    }
}

/// The sum of the first `n` numbers.
pub open spec fn sum_of(q: Seq<i32>, n: int) -> int
    decreases n,
{
    if n <= 0 { 0 } else { sum_of(q, n - 1) + q[n - 1] }
}

/// A number brought into the range of 32 bits by steps of 2^32; one in that range is itself.
pub open spec fn wrapped(x: int) -> int {
    (x + 0x8000_0000) % 0x1_0000_0000 - 0x8000_0000
}

impl<F: Copy> QAct<F> {
    /// The sizes of the buffers are those of the rows.
    pub open spec fn sized(self) -> bool {
        &&& self.kb > 0
        &&& self.k % self.kb == 0
        &&& self.q@.len() == self.m * self.k
        &&& self.scale@.len() == self.m * (self.k as int / self.kb as int)
        &&& self.sum@.len() == self.m * (self.k as int / self.kb as int)
    }

    /// Room for `m` rows of `k` columns in blocks of `kb`, all zero.
    pub fn zeros(m: usize, k: usize, kb: usize, zero: F) -> (a: QAct<F>)
        requires
            kb == 16 || kb == 32,
            k % kb == 0,
            m * k <= usize::MAX,
        ensures
            a.sized(),
            a.m == m && a.k == k && a.kb == kb && !a.pair && a.m_used == m,
            forall|i: int| 0 <= i < a.q@.len() ==> #[trigger] a.q@[i] == 0,
            forall|i: int| 0 <= i < a.scale@.len() ==> #[trigger] a.scale@[i] == zero,
            forall|i: int| 0 <= i < a.sum@.len() ==> #[trigger] a.sum@[i] == 0,
    {
        let nb: usize = k / kb;
        proof {
            assert(m * nb <= m * k) by (nonlinear_arith)
                requires
                    nb <= k,
            ;
            assert(0 <= m * nb) by (nonlinear_arith);
        }
        let n: usize = m * k;
        let blocks: usize = m * nb;
        let mut q: Vec<i8> = Vec::new();
        while q.len() < n
            invariant
                q@.len() <= n,
                forall|i: int| 0 <= i < q@.len() ==> #[trigger] q@[i] == 0,
            decreases n - q@.len(),
        {
            q.push(0);
        }
        let mut scale: Vec<F> = Vec::new();
        let mut sum: Vec<i32> = Vec::new();
        while sum.len() < blocks
            invariant
                sum@.len() <= blocks,
                scale@.len() == sum@.len(),
                forall|i: int| 0 <= i < scale@.len() ==> #[trigger] scale@[i] == zero,
                forall|i: int| 0 <= i < sum@.len() ==> #[trigger] sum@[i] == 0,
            decreases blocks - sum@.len(),
        {
            scale.push(zero);
            sum.push(0);
        }
        QAct { m, k, kb, q, scale, sum, pair: false, m_used: m }
    }

    /// Blocks per row.
    pub fn nb(&self) -> (n: usize)
        requires
            self.kb > 0,
        ensures
            n == self.k as int / self.kb as int,
    {
        self.k / self.kb
    }

    /// Store block `b` of row `r`: its numbers, cut off to signed bytes, their sum, which wraps, and
    /// their scale.
    pub fn set_block(&mut self, r: usize, b: usize, q: &[i32], scale: F)
        requires
            old(self).sized(),
            r < old(self).m,
            b < old(self).k as int / old(self).kb as int,
            q@.len() == old(self).kb,
        ensures
            final(self).sized(),
            final(self).m == old(self).m && final(self).k == old(self).k && final(self).kb == old(self).kb,
            final(self).pair == old(self).pair && final(self).m_used == old(self).m_used,
            forall|i: int|
                0 <= i < old(self).q@.len() ==> #[trigger] final(self).q@[i] == {
                    let at = r * old(self).k + b * old(self).kb;
                    if at <= i < at + old(self).kb { clamped(q@[i - at]) } else { old(self).q@[i] }
                },
            final(self).scale@ == old(self).scale@.update(
                r * (old(self).k as int / old(self).kb as int) + b,
                scale,
            ),
            final(self).sum@ == old(self).sum@.update(
                r * (old(self).k as int / old(self).kb as int) + b,
                wrapped(sum_of(q@, q@.len() as int)) as i32,
            ),
    {
        let n: usize = q.len();
        let nb: usize = self.nb();
        let size: usize = self.q.len();
        let blocks: usize = self.sum.len();
        proof {
            lemma_block_fits(r as int, self.m as int, self.k as int, self.kb as int, b as int);
        }
        let at: usize = r * self.k + b * self.kb;
        let block: usize = r * nb + b;
        let mut total: i32 = 0;
        let mut i: usize = 0;
        while i < n
            invariant
                n == q@.len(),
                n == self.kb,
                i <= n,
                self.m == old(self).m && self.k == old(self).k && self.kb == old(self).kb,
                self.pair == old(self).pair && self.m_used == old(self).m_used,
                self.scale == old(self).scale,
                self.sum == old(self).sum,
                self.q@.len() == old(self).q@.len(),
                at + n <= size,
                size == self.q@.len(),
                total == wrapped(sum_of(q@, i as int)),
                forall|j: int|
                    0 <= j < self.q@.len() ==> #[trigger] self.q@[j] == if at <= j < at + i {
                        clamped(q@[j - at])
                    } else {
                        old(self).q@[j]
                    },
            decreases n - i,
        {
            let v: i32 = q[i];
            let c: i8 = if v > 127 {
                127
            } else if v < -128 {
                -128
            } else {
                v as i8
            };
            self.q.set(at + i, c);
            total = total.wrapping_add(v);
            i = i + 1;
        }
        self.scale.set(block, scale);
        self.sum.set(block, total);
    }
}

proof fn lemma_block_fits(r: int, m: int, k: int, kb: int, b: int)
    requires
        0 <= r < m,
        kb > 0,
        k >= 0,
        k % kb == 0,
        0 <= b < k / kb,
    ensures
        r * k + b * kb + kb <= m * k,
        r * (k / kb) + b < m * (k / kb),
        0 <= r * k,
        0 <= b * kb,
        0 <= r * (k / kb),
{
    vstd::arithmetic::div_mod::lemma_fundamental_div_mod(k, kb);
    let nb = k / kb;
    assert(b * kb + kb <= k) by (nonlinear_arith)
        requires
            b < nb,
            k == kb * nb,
            kb > 0,
    ;
    assert(r * k + k <= m * k && 0 <= r * k) by (nonlinear_arith)
        requires
            0 <= r < m,
            k >= 0,
    ;
    assert(r * nb + nb <= m * nb && 0 <= r * nb) by (nonlinear_arith)
        requires
            0 <= r < m,
            nb >= 0,
    ;
    assert(0 <= b * kb) by (nonlinear_arith)
        requires
            b >= 0,
            kb > 0,
    ;
}

/// A number that fits a signed byte is kept, and one that does not becomes the nearest that does.
pub proof fn law_clamped_is_nearest(v: i32, n: i8)
    ensures
        -128 <= v <= 127 ==> clamped(v) == v,
        v <= clamped(v) <= n || n <= clamped(v) <= v || clamped(v) == v,
{
}

/// The sum of a block is that of its numbers, whichever way they are split.
pub proof fn law_sum_is_of_all_numbers(q: Seq<i32>, p: Seq<i32>)
    ensures
        sum_of(q + p, (q + p).len() as int) == sum_of(q, q.len() as int) + sum_of(p, p.len() as int),
        q.len() == 1 ==> sum_of(q, 1) == q[0],
        -0x8000_0000 <= sum_of(q, q.len() as int) <= 0x7fff_ffff ==> wrapped(
            sum_of(q, q.len() as int),
        ) == sum_of(q, q.len() as int),
    decreases p.len(),
{
    reveal_with_fuel(sum_of, 2);
    let all = q + p;
    if p.len() == 0 {
        assert(all =~= q);
    } else {
        let rest = p.drop_last();
        law_sum_is_of_all_numbers(q, rest);
        lemma_sum_prefix(all, q + rest, all.len() - 1);
        lemma_sum_prefix(p, rest, p.len() - 1);
        assert(all.last() == p.last());
    }
}

proof fn lemma_sum_prefix(a: Seq<i32>, b: Seq<i32>, n: int)
    requires
        n <= a.len(),
        n <= b.len(),
        forall|i: int| 0 <= i < n ==> a[i] == b[i],
    ensures
        sum_of(a, n) == sum_of(b, n),
    decreases n,
{
    if n > 0 {
        lemma_sum_prefix(a, b, n - 1);
    }
}

} // verus!
