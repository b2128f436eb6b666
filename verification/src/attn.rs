//! Attention over a cache of keys and values: which rows a window takes, and the half-width numbers
//! the cache holds. The arithmetic on the rows is the caller's.
use vstd::prelude::*;

verus! {

/// Queries per block.
pub const QB: usize = 8;

/// IEEE half-precision number, by its bits.
#[derive(Clone, Copy, Debug, Default, PartialEq, Eq, Structural)]
pub struct F16(pub u16);

/// The upper half of a single-precision number, by its bits.
#[derive(Clone, Copy, Debug, Default, PartialEq, Eq, Structural)]
pub struct Bf16(pub u16);

/// A single-precision number's bits rounded to their upper half: to the nearest, and of two equally
/// near ones to the even one.
pub open spec fn upper_half(bits: u32) -> u16 {
    let odd = (bits / 0x1_0000) % 2;
    (((bits + 0x7fff + odd) % 0x1_0000_0000) / 0x1_0000) as u16
}

impl Bf16 {
    /// The number as its bits round.
    pub fn from_single(bits: u32) -> (b: Bf16)
        ensures
            b.0 == upper_half(bits),
    {
        let odd: u32 = (bits / 0x1_0000) % 2;
        Bf16((bits.wrapping_add(0x7fff + odd) / 0x1_0000) as u16)
    }

    /// The bits of the same number in single precision.
    pub fn to_single(self) -> (bits: u32)
        ensures
            bits == self.0 * 0x1_0000,
    {
        self.0 as u32 * 0x1_0000
    }
}

/// A number that fits is kept as it is.
pub proof fn law_half_width_round_trip(h: u16)
    ensures
        upper_half((h * 0x1_0000) as u32) == h,
{
}

/// Rounding moves the bits by half a step at most, and to an even number where it moves them by
/// exactly that.
pub proof fn law_rounding_is_to_nearest_even(bits: u32)
    requires
        bits < 0xffff_7fff,
    ensures
        -0x8000 <= upper_half(bits) * 0x1_0000 - bits <= 0x8000,
        (upper_half(bits) * 0x1_0000 - bits == 0x8000 || upper_half(bits) * 0x1_0000 - bits == -0x8000)
            ==> upper_half(bits) % 2 == 0,
{
}

/// The tokens of a range.
pub open spec fn range_tokens(r: (u32, u32)) -> Seq<u32> {
    Seq::new(r.1 as nat, |j: int| (r.0 + j) as u32)
}

/// The tokens of the first `n` ranges, one range behind another.
pub open spec fn tokens_of(ranges: Seq<(u32, u32)>, n: int) -> Seq<u32>
    decreases n,
{
    if n <= 0 { Seq::empty() } else { tokens_of(ranges, n - 1) + range_tokens(ranges[n - 1]) }
}

/// Tokens `t0..t1` of all ranges, as far as there are any.
pub open spec fn window(ranges: Seq<(u32, u32)>, t0: int, t1: int) -> Seq<u32> {
    let all = tokens_of(ranges, ranges.len() as int);
    let end = if t1 < all.len() { t1 } else { all.len() as int };
    if t0 < end { all.subrange(t0, end) } else { Seq::empty() }
}

proof fn lemma_tokens_prefix(ranges: Seq<(u32, u32)>, i: int, n: int)
    requires
        0 <= i <= n <= ranges.len(),
    ensures
        tokens_of(ranges, i).len() <= tokens_of(ranges, n).len(),
        tokens_of(ranges, n).subrange(0, tokens_of(ranges, i).len() as int) == tokens_of(ranges, i),
    decreases n - i,
{
    let a = tokens_of(ranges, i);
    if i < n {
        lemma_tokens_prefix(ranges, i, n - 1);
        let b = tokens_of(ranges, n - 1);
        assert(tokens_of(ranges, n).subrange(0, a.len() as int) =~= b.subrange(0, a.len() as int));
    } else {
        assert(a.subrange(0, a.len() as int) =~= a);
    }
}

/// The cache rows of tokens `t0..t1` of the ranges, in token order.
pub fn window_rows(ranges: &[(u32, u32)], t0: usize, t1: usize, rows: &mut Vec<u32>)
    requires
        forall|i: int|
            0 <= i < ranges@.len() ==> (#[trigger] ranges@[i]).0 + ranges@[i].1 <= 0x1_0000_0000,
        tokens_of(ranges@, ranges@.len() as int).len() <= usize::MAX,
    ensures
        final(rows)@ == window(ranges@, t0 as int, t1 as int),
{
    rows.clear();
    let n: usize = ranges.len();
    let ghost all = tokens_of(ranges@, n as int);
    if t1 <= t0 {
        assert(rows@ =~= window(ranges@, t0 as int, t1 as int));
        return;
    }
    let mut i: usize = 0;
    let mut off: usize = 0;
    while i < n && off < t1
        invariant
            n == ranges@.len(),
            i <= n,
            t0 < t1,
            all == tokens_of(ranges@, n as int),
            all.len() <= usize::MAX,
            off == tokens_of(ranges@, i as int).len(),
            off <= all.len(),
            forall|i: int|
                0 <= i < ranges@.len() ==> (#[trigger] ranges@[i]).0 + ranges@[i].1 <= 0x1_0000_0000,
            rows@ == all.subrange(
                if t0 < off { t0 as int } else { off as int },
                if off < t1 { off as int } else { if t1 < all.len() { t1 as int } else { all.len() as int } },
            ),
            t0 >= off ==> rows@.len() == 0,
        decreases n - i,
    {
        let (start, len) = ranges[i];
        proof {
            lemma_tokens_prefix(ranges@, i as int, n as int);
            lemma_tokens_prefix(ranges@, i + 1, n as int);
            assert(ranges@[i as int].0 + ranges@[i as int].1 <= 0x1_0000_0000);
        }
        let end: usize = off + len as usize;
        let a: usize = if off > t0 { off } else { t0 };
        let b: usize = if end < t1 { end } else { t1 };
        let ghost before = rows@;
        let ghost here = tokens_of(ranges@, i + 1);
        let mut j: usize = a;
        while j < b
            invariant
                a <= j,
                j <= b || j == a,
                b <= end,
                off <= a,
                end == off + len,
                end <= all.len(),
                start + len <= 0x1_0000_0000,
                here == tokens_of(ranges@, i + 1),
                here.len() == end,
                here == all.subrange(0, end as int),
                forall|q: int| off <= q < end ==> #[trigger] here[q] == start + (q - off),
                rows@ == if a < j { before + all.subrange(a as int, j as int) } else { before },
            decreases b - j,
        {
            proof {
                assert(here[j as int] == all[j as int]);
            }
            let x: u32 = start + (j - off) as u32;
            rows.push(x);
            assert(rows@ =~= before + all.subrange(a as int, j + 1));
            j = j + 1;
        }
        proof {
            let lo = if t0 < end { t0 as int } else { end as int };
            let hi = if end < t1 { end as int } else {
                if t1 < all.len() { t1 as int } else { all.len() as int }
            };
            assert(rows@ =~= all.subrange(lo, hi));
        }
        off = end;
        i = i + 1;
    }
    proof {
        lemma_tokens_prefix(ranges@, i as int, n as int);
        assert(rows@ =~= window(ranges@, t0 as int, t1 as int));
    }
}

/// A window is its two parts one behind the other, wherever it is split.
pub proof fn law_split_window_is_whole(ranges: Seq<(u32, u32)>, t0: int, t1: int, t2: int)
    requires
        0 <= t0 <= t1 <= t2,
    ensures
        window(ranges, t0, t1) + window(ranges, t1, t2) == window(ranges, t0, t2),
{
    assert(window(ranges, t0, t1) + window(ranges, t1, t2) =~= window(ranges, t0, t2));
}

/// Whether query `q` of a block sees a row, by the row's mask.
pub fn in_view(mask: u8, q: usize) -> (r: bool)
    requires
        q < QB,
    ensures
        r == ((mask >> (q as u8)) % 2 == 1),
{
    (mask >> (q as u8)) % 2 == 1
}

/// The tokens of the ranges come range by range, each from its first token on, one by one.
pub proof fn law_tokens_come_range_by_range(ranges: Seq<(u32, u32)>, r: (u32, u32), j: int)
    requires
        r.0 + r.1 <= 0x1_0000_0000,
        0 <= j < r.1,
    ensures
        ({
            let before = tokens_of(ranges, ranges.len() as int);
            let all = tokens_of(ranges.push(r), ranges.len() as int + 1);
            &&& all.len() == before.len() + r.1
            &&& all.subrange(0, before.len() as int) == before
            &&& all[before.len() + j] == r.0 + j
        }),
        tokens_of(Seq::empty(), 0) == Seq::<u32>::empty(),
{
    lemma_tokens_of_more(ranges, r, ranges.len() as int);
    let before = tokens_of(ranges, ranges.len() as int);
    let all = tokens_of(ranges.push(r), ranges.len() as int + 1);
    assert(ranges.push(r)[ranges.len() as int] == r);
    assert(all =~= before + range_tokens(r));
    assert(all.subrange(0, before.len() as int) =~= before);
}

proof fn lemma_tokens_of_more(ranges: Seq<(u32, u32)>, r: (u32, u32), n: int)
    requires
        n <= ranges.len(),
    ensures
        tokens_of(ranges.push(r), n) == tokens_of(ranges, n),
    decreases n,
{
    if n > 0 {
        lemma_tokens_of_more(ranges, r, n - 1);
        assert(ranges.push(r)[n - 1] == ranges[n - 1]);
    }
}

/// A window holds the tokens of its places, as far as there are any.
pub proof fn law_window_holds_its_places(ranges: Seq<(u32, u32)>, t0: int, t1: int, t: int)
    requires
        0 <= t0 <= t < t1,
        t < tokens_of(ranges, ranges.len() as int).len(),
    ensures
        window(ranges, t0, t1).len() > t - t0,
        window(ranges, t0, t1)[t - t0] == tokens_of(ranges, ranges.len() as int)[t],
        window(ranges, t0, t1).len() <= t1 - t0,
{
}

} // verus!
