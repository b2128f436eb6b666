//! The hash of n-grams that picks the rows of the embedding table. For a token and those before it,
//! every length from two tokens to `ngram` mixes them into one number, and each head of that length
//! takes a row of its own part of the table by it.
use vstd::prelude::*;

verus! {

/// How n-grams are hashed: heads of `per_gram` per length, each with its part of the table.
#[derive(Debug)]
pub struct PleHash {
    pub ngram: usize,
    pub per_gram: usize,
    pub eos: u32,
    pub mult: Vec<u64>,
    pub offsets: Vec<u64>,
    pub vocab: Vec<u64>,
}

/// Whether the history ends before the predecessor `s` tokens back: nothing stands there, or a text
/// ended there or since.
pub open spec fn cut_off(prev: Seq<u32>, eos: u32, s: int) -> bool
    decreases s,
{
    s > 0 && (cut_off(prev, eos, s - 1) || s > prev.len() || prev[prev.len() - s] == eos)
}

/// The token `s` back, the end mark where the history is cut off.
pub open spec fn context(tok: u32, prev: Seq<u32>, eos: u32, s: int) -> u64 {
    if s <= 0 {
        tok as u64
    } else if cut_off(prev, eos, s) {
        eos as u64
    } else {
        prev[prev.len() - s] as u64
    }
}

/// A product without what exceeds 64 bits.
pub open spec fn product(a: u64, b: u64) -> u64 {
    ((a * b) % 0x1_0000_0000_0000_0000) as u64
}

/// The first `n` tokens of the context, the latest first, mixed with their multipliers.
pub open spec fn mixed(ctx: spec_fn(int) -> u64, mult: Seq<u64>, n: int) -> u64
    decreases n,
{
    if n <= 1 {
        product(ctx(0), mult[0])
    } else {
        mixed(ctx, mult, n - 1) ^ product(ctx(n - 1), mult[n - 1])
    }
}

/// The low 32 bits.
pub open spec fn low32(v: int) -> u32 {
    (v % 0x1_0000_0000) as u32
}

impl PleHash {
    /// The number of heads.
    pub open spec fn heads(self) -> int {
        (self.ngram - 1) * self.per_gram
    }

    /// Whether there is a multiplier for every token and a part of the table for every head.
    pub open spec fn complete(self) -> bool {
        &&& self.ngram >= 1
        &&& self.heads() <= usize::MAX
        &&& self.mult@.len() >= self.ngram
        &&& self.offsets@.len() >= self.heads()
        &&& self.vocab@.len() >= self.heads()
        &&& forall|h: int|
            0 <= h < self.heads() ==> #[trigger] self.vocab@[h] > 0 && self.vocab@[h] + self.offsets@[h] <= u64::MAX
    }

    /// The row of head `h`.
    pub open spec fn row(self, tok: u32, prev: Seq<u32>, h: int) -> u32 {
        let n = h / self.per_gram as int + 2;
        low32(
            mixed(|s: int| context(tok, prev, self.eos, s), self.mult@, n) as int % self.vocab@[h] as int
                + self.offsets@[h],
        )
    }

    pub fn n_heads(&self) -> (n: usize)
        requires
            self.ngram >= 1,
            self.heads() <= usize::MAX,
        ensures
            n == self.heads(),
    {
        (self.ngram - 1) * self.per_gram
    }

    /// Write the row of every head. `prev` holds the predecessors, the most recent last; those before
    /// the start of the sequence are absent.
    pub fn rows(&self, tok: u32, prev: &[u32], out: &mut [u32])
        requires
            self.complete(),
            old(out)@.len() >= self.heads(),
        ensures
            final(out)@.len() == old(out)@.len(),
            forall|h: int| 0 <= h < self.heads() ==> #[trigger] final(out)@[h] == self.row(tok, prev@, h),
            forall|h: int| self.heads() <= h < old(out)@.len() ==> #[trigger] final(out)@[h] == old(out)@[h],
    {
        let n_prev: usize = prev.len();
        let mut ctx: Vec<u64> = Vec::new();
        ctx.push(tok as u64);
        let mut cut: bool = false;
        let mut s: usize = 1;
        while s < self.ngram
            invariant
                n_prev == prev@.len(),
                1 <= s <= self.ngram,
                ctx@.len() == s,
                cut == cut_off(prev@, self.eos, s - 1),
                forall|j: int| 0 <= j < s ==> #[trigger] ctx@[j] == context(tok, prev@, self.eos, j),
            decreases self.ngram - s,
        {
            let t: u32 = if cut || s > n_prev { self.eos } else { prev[n_prev - s] };
            cut = cut || s > n_prev || t == self.eos;
            ctx.push(if cut { self.eos as u64 } else { t as u64 });
            s = s + 1;
        }
        let mut i: usize = 1;
        let ghost f = |s: int| context(tok, prev@, self.eos, s);
        let ghost first = out@;
        proof {
            assert((1 - 1) * self.per_gram == 0) by (nonlinear_arith);
        }
        while i < self.ngram
            invariant
                self.complete(),
                f == (|s: int| context(tok, prev@, self.eos, s)),
                ctx@.len() == self.ngram,
                forall|j: int| 0 <= j < self.ngram ==> #[trigger] ctx@[j] == context(tok, prev@, self.eos, j),
                1 <= i <= self.ngram,
                first.len() >= self.heads(),
                out@.len() == first.len(),
                first == old(out)@,
                forall|h: int|
                    0 <= h < (i - 1) * self.per_gram && h < self.heads() ==> #[trigger] out@[h] == self.row(
                        tok,
                        prev@,
                        h,
                    ),
                forall|h: int| self.heads() <= h < out@.len() ==> #[trigger] out@[h] == first[h],
            decreases self.ngram - i,
        {
            let n: usize = i + 1;
            let mut m: u64 = ctx[0].wrapping_mul(self.mult[0]);
            let mut j: usize = 1;
            while j < n
                invariant
                    1 <= j <= n <= self.ngram,
                    self.mult@.len() >= self.ngram,
                    f == (|s: int| context(tok, prev@, self.eos, s)),
                    ctx@.len() == self.ngram,
                    forall|j: int| 0 <= j < self.ngram ==> #[trigger] ctx@[j] == context(tok, prev@, self.eos, j),
                    m == mixed(f, self.mult@, j as int),
                decreases n - j,
            {
                m = m ^ ctx[j].wrapping_mul(self.mult[j]);
                j = j + 1;
            }
            proof {
                lemma_gram(n as int, self.ngram as int, self.per_gram as int);
            }
            let base: usize = (n - 2) * self.per_gram;
            let mut g: usize = 0;
            while g < self.per_gram
                invariant
                    self.complete(),
                    2 <= n <= self.ngram,
                    base == (n - 2) * self.per_gram,
                    base + self.per_gram <= self.heads(),
                    g <= self.per_gram,
                    f == (|s: int| context(tok, prev@, self.eos, s)),
                    m == mixed(f, self.mult@, n as int),
                    first.len() >= self.heads(),
                    out@.len() == first.len(),
                    forall|h: int| 0 <= h < base + g ==> #[trigger] out@[h] == self.row(tok, prev@, h),
                    forall|h: int| self.heads() <= h < out@.len() ==> #[trigger] out@[h] == first[h],
                decreases self.per_gram - g,
            {
                let h: usize = base + g;
                proof {
                    lemma_head(h as int, n as int, self.per_gram as int, g as int);
                    assert(self.vocab@[h as int] > 0);
                }
                let v: u64 = m % self.vocab[h] + self.offsets[h];
                let x: u64 = v % 0x1_0000_0000;
                out[h] = x as u32;
                g = g + 1;
            }
            proof {
                assert(i * self.per_gram == base + self.per_gram) by (nonlinear_arith)
                    requires
                        base == (i + 1 - 2) * self.per_gram,
                ;
            }
            i = n;
        }
    }
}

proof fn lemma_gram(n: int, ngram: int, per: int)
    requires
        2 <= n <= ngram,
        per >= 0,
    ensures
        0 <= (n - 2) * per,
        (n - 2) * per + per <= (ngram - 1) * per,
{
    assert(0 <= (n - 2) * per && (n - 2) * per + per <= (ngram - 1) * per) by (nonlinear_arith)
        requires
            2 <= n <= ngram,
            per >= 0,
    ;
}

proof fn lemma_head(h: int, n: int, per: int, g: int)
    requires
        n >= 2,
        0 <= g < per,
        h == (n - 2) * per + g,
    ensures
        h / per + 2 == n,
{
    vstd::arithmetic::div_mod::lemma_fundamental_div_mod_converse(h, per, n - 2, g);
}

proof fn lemma_mixed(f: spec_fn(int) -> u64, g: spec_fn(int) -> u64, mult: Seq<u64>, n: int)
    requires
        forall|s: int| 0 <= s < n || s == 0 ==> #[trigger] f(s) == g(s),
    ensures
        mixed(f, mult, n) == mixed(g, mult, n),
    decreases n,
{
    assert(f(0) == g(0));
    if n > 1 {
        lemma_mixed(f, g, mult, n - 1);
        assert(f(n - 1) == g(n - 1));
    }
}

proof fn lemma_stays_cut(prev: Seq<u32>, eos: u32, s: int, t: int)
    requires
        0 < s <= t,
        cut_off(prev, eos, s),
    ensures
        cut_off(prev, eos, t),
    decreases t - s,
{
    if s < t {
        lemma_stays_cut(prev, eos, s, t - 1);
    }
}

proof fn lemma_same_cut(a: Seq<u32>, b: Seq<u32>, eos: u32, s: int, t: int)
    requires
        0 <= t < s,
        s - 1 <= a.len(),
        s - 1 <= b.len(),
        forall|q: int| 1 <= q < s ==> #[trigger] a[a.len() - q] == b[b.len() - q],
    ensures
        cut_off(a, eos, t) == cut_off(b, eos, t),
    decreases t,
{
    if t > 0 {
        lemma_same_cut(a, b, eos, s, t - 1);
        assert(a[a.len() - t] == b[b.len() - t]);
    }
}

/// What stands before the end of a text does not matter: two histories that agree up to where both
/// are cut off give every head the same row.
pub proof fn law_end_of_text_hides_the_past(p: PleHash, tok: u32, a: Seq<u32>, b: Seq<u32>, s: int, h: int)
    requires
        s >= 1,
        cut_off(a, p.eos, s),
        cut_off(b, p.eos, s),
        s - 1 <= a.len(),
        s - 1 <= b.len(),
        forall|q: int| 1 <= q < s ==> #[trigger] a[a.len() - q] == b[b.len() - q],
    ensures
        p.row(tok, a, h) == p.row(tok, b, h),
{
    let f = |q: int| context(tok, a, p.eos, q);
    let g = |q: int| context(tok, b, p.eos, q);
    let n = h / p.per_gram as int + 2;
    assert forall|q: int| 0 <= q < n || q == 0 implies #[trigger] f(q) == g(q) by {
        if q > 0 {
            if q >= s {
                lemma_stays_cut(a, p.eos, s, q);
                lemma_stays_cut(b, p.eos, s, q);
            } else {
                lemma_same_cut(a, b, p.eos, s, q);
                assert(a[a.len() - q] == b[b.len() - q]);
            }
        }
    }
    lemma_mixed(f, g, p.mult@, n);
}

/// Every head's row lies within its own part of the table, where that lies within the row numbers.
pub proof fn law_rows_stay_within_their_part(p: PleHash, tok: u32, prev: Seq<u32>, h: int)
    requires
        p.complete(),
        0 <= h < p.heads(),
        p.offsets@[h] + p.vocab@[h] <= 0x1_0000_0000,
    ensures
        p.offsets@[h] <= p.row(tok, prev, h) < p.offsets@[h] + p.vocab@[h],
{
    let m = mixed(|s: int| context(tok, prev, p.eos, s), p.mult@, h / p.per_gram as int + 2);
    assert(p.vocab@[h] > 0);
    vstd::arithmetic::div_mod::lemma_mod_bound(m as int, p.vocab@[h] as int);
}

/// The rows of the first heads mix the token with the one before it, where that is known and does not
/// end a text, and with the end of text otherwise: each times its own multiplier, modulo the head's
/// part of the table.
pub proof fn law_rows_of_two_tokens(p: PleHash, tok: u32, prev: Seq<u32>, h: int)
    requires
        0 <= h < p.per_gram,
    ensures
        ({
            let before = if prev.len() == 0 { p.eos } else { prev.last() };
            let a = ((tok * p.mult@[0]) % 0x1_0000_0000_0000_0000) as u64;
            let b = ((before * p.mult@[1]) % 0x1_0000_0000_0000_0000) as u64;
            p.row(tok, prev, h) == ((a ^ b) as int % p.vocab@[h] as int + p.offsets@[h]) % 0x1_0000_0000
        }),
{
    reveal_with_fuel(mixed, 3);
    reveal_with_fuel(cut_off, 3);
    assert(h / p.per_gram as int == 0) by (nonlinear_arith)
        requires
            0 <= h < p.per_gram,
    ;
    let before = if prev.len() == 0 { p.eos } else { prev.last() };
    assert(context(tok, prev, p.eos, 1) == before as u64);
    assert(context(tok, prev, p.eos, 0) == tok as u64);
}

/// Longer histories mix in one token more, times its own multiplier.
pub proof fn law_longer_history_mixes_in_one_more(ctx: spec_fn(int) -> u64, mult: Seq<u64>, n: int)
    requires
        n >= 1,
    ensures
        mixed(ctx, mult, n + 1) == mixed(ctx, mult, n) ^ (((ctx(n) * mult[n]) % 0x1_0000_0000_0000_0000) as u64),
        mixed(ctx, mult, 1) == ((ctx(0) * mult[0]) % 0x1_0000_0000_0000_0000) as u64,
{
}

/// A token of the history counts as it is where no text ended behind it, and as the end of text
/// otherwise.
pub proof fn law_history_up_to_the_end_of_text(tok: u32, prev: Seq<u32>, eos: u32, s: int)
    requires
        s >= 1,
    ensures
        s <= prev.len() && (forall|q: int| 1 <= q <= s ==> #[trigger] prev[prev.len() - q] != eos) ==> context(
            tok,
            prev,
            eos,
            s,
        ) == prev[prev.len() - s],
        s > prev.len() ==> context(tok, prev, eos, s) == eos,
        (exists|q: int| 1 <= q <= s && q <= prev.len() && #[trigger] prev[prev.len() - q] == eos) ==> context(
            tok,
            prev,
            eos,
            s,
        ) == eos,
        context(tok, prev, eos, 0) == tok,
{
    lemma_cut_off(prev, eos, s);
}

proof fn lemma_cut_off(prev: Seq<u32>, eos: u32, s: int)
    requires
        s >= 0,
    ensures
        s <= prev.len() && (forall|q: int| 1 <= q <= s ==> #[trigger] prev[prev.len() - q] != eos)
            ==> !cut_off(prev, eos, s),
        s > prev.len() ==> cut_off(prev, eos, s),
        (exists|q: int| 1 <= q <= s && q <= prev.len() && #[trigger] prev[prev.len() - q] == eos) ==> cut_off(
            prev,
            eos,
            s,
        ),
    decreases s,
{
    if s > 0 {
        lemma_cut_off(prev, eos, s - 1);
    }
}

} // verus!
