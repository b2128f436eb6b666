//! Sparse attention: which cached tokens a query sees. Blocks of `r` tokens are scored, the scores
//! given by their order keys.
use crate::router::{above, ahead, best_of, law_best_is_unique, no_expert, topk_sorted, Slot};
use vstd::prelude::*;

verus! {

/// Number of complete blocks below the tail for a query at position `pos`.
pub fn n_complete_blocks(pos: usize, r: usize) -> (n: usize)
    requires
        r > 0,
        pos < usize::MAX,
    ensures
        n == (pos + 1) / r as int,
{
    (pos + 1) / r
}

/// Whether the query at `pos` sees fewer than all `pos + 1` cached tokens.
pub open spec fn sparse(pos: int, r: int, top_k: int) -> bool {
    pos + 1 > top_k + r - 1
}

/// True when the query at `pos` sees fewer than all `pos + 1` cached tokens.
pub fn is_sparse(pos: usize, r: usize, top_k: usize) -> (b: bool)
    requires
        pos < usize::MAX,
        r > 0,
        top_k + r - 1 <= usize::MAX,
    ensures
        b == sparse(pos as int, r as int, top_k as int),
{
    pos + 1 > top_k + (r - 1)
}

/// The first token of the incomplete block at the end.
pub open spec fn tail_start(pos: int, r: int) -> int {
    (pos + 1) / r * r
}

/// How many tokens of complete blocks a sparse query sees.
pub open spec fn slots(pos: int, r: int, top_k: int) -> int {
    top_k + r - 1 - (pos + 1 - tail_start(pos, r))
}

/// How many blocks a sparse query sees tokens of.
pub open spec fn blocks_seen(pos: int, r: int, top_k: int) -> int {
    slots(pos, r, top_k) / r + if slots(pos, r, top_k) % r > 0 { 1int } else { 0int }
}

/// Below every score's key.
pub const FLOOR: i64 = i64::MIN;

/// Whether the query sees a token, where `best` are the blocks it sees, the best first: all of the
/// tail, whole blocks, and of the last block only the first tokens where the slots do not fill it.
pub open spec fn sees(best: Seq<Slot>, pos: int, r: int, top_k: int, t: int) -> bool {
    let part = slots(pos, r, top_k) % r;
    ||| tail_start(pos, r) <= t <= pos
    ||| 0 <= t < tail_start(pos, r) && exists|a: int|
        0 <= a < best.len() && (#[trigger] best[a]).index == t / r && (a < best.len() - 1 || part == 0 || t % r
            < part)
}

/// Whether the ranges hold a token.
pub open spec fn held(ranges: Seq<(u32, u32)>, t: int) -> bool {
    exists|i: int| 0 <= i < ranges.len() && (#[trigger] ranges[i]).0 <= t < ranges[i].0 + ranges[i].1
}

/// Whether ranges are sorted, none is empty, and no two of them touch.
pub open spec fn merged(ranges: Seq<(u32, u32)>) -> bool {
    &&& forall|i: int| 0 <= i < ranges.len() ==> (#[trigger] ranges[i]).1 > 0
    &&& forall|i: int, j: int|
        0 <= i < j < ranges.len() ==> (#[trigger] ranges[i]).0 + ranges[i].1 < (#[trigger] ranges[j]).0
}

/// How many tokens the ranges hold.
pub open spec fn total(ranges: Seq<(u32, u32)>) -> int
    decreases ranges.len(),
{
    if ranges.len() == 0 { 0 } else { total(ranges.drop_last()) + ranges.last().1 }
}

/// The end of the last range.
pub open spec fn range_end(ranges: Seq<(u32, u32)>) -> int {
    if ranges.len() == 0 { 0 } else { ranges.last().0 + ranges.last().1 }
}

/// Append tokens at or behind the end; a range that they touch grows.
fn push_range(ranges: &mut Vec<(u32, u32)>, start: u32, len: u32)
    requires
        merged(old(ranges)@),
        range_end(old(ranges)@) <= start,
        start + len <= u32::MAX,
    ensures
        merged(final(ranges)@),
        total(final(ranges)@) == total(old(ranges)@) + len,
        range_end(final(ranges)@) == if len == 0 { range_end(old(ranges)@) } else { start + len },
        forall|t: int| #[trigger]
            held(final(ranges)@, t) <==> (held(old(ranges)@, t) || start <= t < start + len),
{
    let ghost before = ranges@;
    if len == 0 {
        return;
    }
    let n: usize = ranges.len();
    if n > 0 && ranges[n - 1].0 + ranges[n - 1].1 == start {
        let last: (u32, u32) = ranges[n - 1];
        ranges.set(n - 1, (last.0, last.1 + len));
        proof {
            assert(ranges@.drop_last() =~= before.drop_last());
            assert forall|t: int| #[trigger] held(ranges@, t) <==> (held(before, t) || start <= t < start + len) by {
                if held(ranges@, t) {
                    let i = choose|i: int|
                        0 <= i < ranges@.len() && (#[trigger] ranges@[i]).0 <= t < ranges@[i].0 + ranges@[i].1;
                    if i < n - 1 {
                        assert(before[i] == ranges@[i]);
                    } else if t < start {
                        assert(before[n - 1].0 <= t);
                    }
                }
                if held(before, t) {
                    let i = choose|i: int|
                        0 <= i < before.len() && (#[trigger] before[i]).0 <= t < before[i].0 + before[i].1;
                    assert(ranges@[i].0 <= t < ranges@[i].0 + ranges@[i].1);
                }
                if start <= t < start + len {
                    assert(ranges@[n - 1].0 <= t < ranges@[n - 1].0 + ranges@[n - 1].1);
                }
            }
        }
        return;
    }
    ranges.push((start, len));
    proof {
        assert(ranges@.drop_last() =~= before);
        assert forall|i: int, j: int| 0 <= i < j < ranges@.len() implies (#[trigger] ranges@[i]).0 + ranges@[i].1
            < (#[trigger] ranges@[j]).0 by {
            if j == n {
                assert(ranges@[i] == before[i]);
                if i < n - 1 {
                    assert(before[i].0 + before[i].1 < before[n - 1].0);
                }
            } else {
                assert(ranges@[i] == before[i] && ranges@[j] == before[j]);
            }
        }
        assert forall|t: int| #[trigger] held(ranges@, t) <==> (held(before, t) || start <= t < start + len) by {
            if held(ranges@, t) {
                let i = choose|i: int|
                    0 <= i < ranges@.len() && (#[trigger] ranges@[i]).0 <= t < ranges@[i].0 + ranges@[i].1;
                if i < n {
                    assert(before[i] == ranges@[i]);
                }
            }
            if held(before, t) {
                let i = choose|i: int|
                    0 <= i < before.len() && (#[trigger] before[i]).0 <= t < before[i].0 + before[i].1;
                assert(ranges@[i] == before[i]);
            }
            if start <= t < start + len {
                assert(ranges@[n as int].0 <= t < ranges@[n as int].0 + ranges@[n as int].1);
            }
        }
    }
}

/// How many of the first `n` blocks are marked.
pub open spec fn marked(flags: Seq<bool>, n: int) -> int
    decreases n,
{
    if n <= 0 { 0 } else { marked(flags, n - 1) + if flags[n - 1] { 1int } else { 0int } }
}

proof fn lemma_marked_update(flags: Seq<bool>, i: int, n: int)
    requires
        0 <= i < flags.len(),
        0 <= n <= flags.len(),
        !flags[i],
    ensures
        marked(flags.update(i, true), n) == marked(flags, n) + if i < n { 1int } else { 0int },
    decreases n,
{
    if n > 0 {
        lemma_marked_update(flags, i, n - 1);
    }
}

proof fn lemma_marked_zero(flags: Seq<bool>, n: int)
    requires
        0 <= n <= flags.len(),
        forall|i: int| 0 <= i < n ==> !#[trigger] flags[i],
    ensures
        marked(flags, n) == 0,
    decreases n,
{
    if n > 0 {
        lemma_marked_zero(flags, n - 1);
    }
}

/// Mark the blocks that the slots name.
fn mark(best: &Vec<Slot>, nb: usize) -> (flags: Vec<bool>)
    requires
        forall|a: int| 0 <= a < best@.len() ==> (#[trigger] best@[a]).index < nb,
        forall|a: int, b: int| 0 <= a < b < best@.len() ==> (#[trigger] best@[a]).index != (#[trigger] best@[b]).index,
    ensures
        flags@.len() == nb,
        marked(flags@, nb as int) == best@.len(),
        forall|b: int|
            0 <= b < nb ==> (#[trigger] flags@[b] <==> exists|a: int|
                0 <= a < best@.len() && (#[trigger] best@[a]).index == b),
{
    let mut flags: Vec<bool> = Vec::new();
    while flags.len() < nb
        invariant
            flags@.len() <= nb,
            forall|b: int| 0 <= b < flags@.len() ==> !#[trigger] flags@[b],
        decreases nb - flags@.len(),
    {
        flags.push(false);
    }
    proof {
        lemma_marked_zero(flags@, nb as int);
    }
    let n: usize = best.len();
    let mut i: usize = 0;
    while i < n
        invariant
            n == best@.len(),
            i <= n,
            flags@.len() == nb,
            forall|a: int| 0 <= a < best@.len() ==> (#[trigger] best@[a]).index < nb,
            forall|a: int, b: int|
                0 <= a < b < best@.len() ==> (#[trigger] best@[a]).index != (#[trigger] best@[b]).index,
            marked(flags@, nb as int) == i,
            forall|b: int|
                0 <= b < nb ==> (#[trigger] flags@[b] <==> exists|a: int|
                    0 <= a < i && (#[trigger] best@[a]).index == b),
        decreases n - i,
    {
        let b: usize = best[i].index as usize;
        let ghost before = flags@;
        proof {
            assert(best@[i as int].index < nb);
            assert(!before[b as int]) by {
                if before[b as int] {
                    let a = choose|a: int| 0 <= a < i && (#[trigger] best@[a]).index == b;
                    assert(best@[a].index != best@[i as int].index);
                }
            }
            lemma_marked_update(before, b as int, nb as int);
        }
        flags.set(b, true);
        proof {
            assert forall|x: int| 0 <= x < nb implies (#[trigger] flags@[x] <==> exists|a: int|
                0 <= a < i + 1 && (#[trigger] best@[a]).index == x) by {
                if x == b {
                    assert(best@[i as int].index == x);
                } else {
                    assert(flags@[x] == before[x]);
                }
            }
        }
        i = i + 1;
    }
    flags
}

proof fn lemma_all_above(keys: Seq<i64>, n: int)
    requires
        0 <= n <= keys.len(),
        forall|i: int| 0 <= i < n ==> #[trigger] keys[i] > FLOOR,
    ensures
        above(keys, n, FLOOR) == n,
    decreases n,
{
    if n > 0 {
        lemma_all_above(keys, n - 1);
    }
}

proof fn lemma_sizes(pos: int, r: int, top_k: int)
    requires
        r > 0,
        pos >= 0,
        top_k >= 0,
        sparse(pos, r, top_k),
    ensures
        0 <= tail_start(pos, r) <= pos + 1 < tail_start(pos, r) + r,
        tail_start(pos, r) == (pos + 1) / r * r,
        0 <= slots(pos, r, top_k) < tail_start(pos, r),
        0 <= blocks_seen(pos, r, top_k) <= (pos + 1) / r,
        slots(pos, r, top_k) == slots(pos, r, top_k) / r * r + slots(pos, r, top_k) % r,
        0 <= slots(pos, r, top_k) % r < r,
{
    let n = pos + 1;
    vstd::arithmetic::div_mod::lemma_fundamental_div_mod(n, r);
    vstd::arithmetic::mul::lemma_mul_is_commutative(r, n / r);
    vstd::arithmetic::div_mod::lemma_mod_bound(n, r);
    vstd::arithmetic::div_mod::lemma_div_pos_is_pos(n, r);
    assert(0 <= n / r * r) by (nonlinear_arith)
        requires
            n / r >= 0,
            r > 0,
    ;
    let s = slots(pos, r, top_k);
    let nb = n / r;
    vstd::arithmetic::div_mod::lemma_fundamental_div_mod(s, r);
    vstd::arithmetic::mul::lemma_mul_is_commutative(r, s / r);
    vstd::arithmetic::div_mod::lemma_mod_bound(s, r);
    vstd::arithmetic::div_mod::lemma_div_pos_is_pos(s, r);
    let q = s / r;
    let m = s % r;
    assert(q + (if m > 0 { 1int } else { 0int }) <= nb) by (nonlinear_arith)
        requires
            q * r + m < nb * r,
            0 <= m < r,
            r > 0,
    ;
}

/// Whether a token stands in one of the first `n` blocks, and that is marked; of block `last` only the
/// first `part` tokens count.
spec fn shown(flags: Seq<bool>, n: int, last: int, part: int, r: int, t: int) -> bool {
    0 <= t < n * r && flags[t / r] && (t / r != last || t % r < part)
}

/// Visible token ranges (start, length), sorted and merged, for the query at `pos`; `keys` holds one
/// score's key per complete block. False, with a single full range, when the query sees everything.
pub fn select_ranges(keys: &[i64], pos: usize, r: usize, top_k: usize, ranges: &mut Vec<(u32, u32)>) -> (b: bool)
    requires
        r > 0,
        pos + 1 <= u32::MAX,
        top_k + r - 1 <= usize::MAX,
        (pos + 1) / r as int <= keys@.len(),
        forall|i: int| 0 <= i < keys@.len() ==> #[trigger] keys@[i] > FLOOR,
    ensures
        b == sparse(pos as int, r as int, top_k as int),
        merged(final(ranges)@),
        !b ==> final(ranges)@ == seq![(0u32, (pos + 1) as u32)],
        b ==> total(final(ranges)@) == top_k + r - 1,
        b ==> exists|best: Seq<Slot>|
            {
                &&& best.len() == blocks_seen(pos as int, r as int, top_k as int)
                &&& #[trigger] best_of(
                    best,
                    keys@.take((pos + 1) / r as int),
                    (pos + 1) / r as int,
                    FLOOR,
                )
                &&& forall|a: int| 0 <= a < best.len() ==> #[trigger] best[a] != no_expert(FLOOR)
                &&& forall|t: int| #[trigger]
                    held(final(ranges)@, t) <==> sees(best, pos as int, r as int, top_k as int, t)
            },
{
    ranges.clear();
    if !is_sparse(pos, r, top_k) {
        ranges.push((0, (pos + 1) as u32));
        return false;
    }
    proof {
        lemma_sizes(pos as int, r as int, top_k as int);
    }
    let nb: usize = n_complete_blocks(pos, r);
    proof {
        assert(nb * r <= pos + 1);
    }
    let start: usize = nb * r;
    let tail: usize = pos + 1 - start;
    let free: usize = top_k + (r - 1) - tail;
    let whole: usize = free / r;
    let part: usize = free % r;
    let need: usize = if part > 0 { whole + 1 } else { whole };
    let ghost some = keys@.take(nb as int);
    let best: Vec<Slot> = if need == 0 {
        let none: Vec<Slot> = Vec::new();
        none
    } else {
        assert(nb <= nb * r) by (nonlinear_arith)
            requires
                r >= 1,
        ;
        let sub: &[i64] = vstd::slice::slice_subrange(keys, 0, nb);
        assert(sub@ =~= some);
        topk_sorted(sub, need, FLOOR)
    };
    proof {
        assert(some.len() == nb);
        lemma_all_above(some, nb as int);
        assert forall|a: int| 0 <= a < best@.len() implies #[trigger] best@[a] != no_expert(FLOOR) by {
            assert(a < above(some, nb as int, FLOOR));
        }
        assert forall|a: int, b: int| 0 <= a < b < best@.len() implies (#[trigger] best@[a]).index
            != (#[trigger] best@[b]).index by {
            assert(ahead(best@[a], best@[b]));
            if best@[a].index == best@[b].index {
                assert(best@[a].key == some[best@[a].index as int]);
                assert(best@[b].key == some[best@[b].index as int]);
            }
        }
    }
    let flags: Vec<bool> = mark(&best, nb);
    let last: usize = if part > 0 { best[need - 1].index as usize } else { nb };
    let mut i: usize = 0;
    proof {
        assert(0 * r == 0) by (nonlinear_arith);
        assert(r * 0 == 0) by (nonlinear_arith);
        assert(total(ranges@) == 0);
        assert forall|t: int| #[trigger] held(ranges@, t) <==> shown(
            flags@,
            0,
            last as int,
            part as int,
            r as int,
            t,
        ) by {
            assert(ranges@.len() == 0);
        }
    }
    while i < nb
        invariant
            r > 0,
            pos + 1 <= u32::MAX,
            i <= nb,
            nb * r <= pos + 1,
            part < r,
            flags@.len() == nb,
            last <= nb,
            last < nb <==> part > 0,
            last < nb ==> flags@[last as int],
            merged(ranges@),
            range_end(ranges@) <= i * r,
            total(ranges@) == r * marked(flags@, i as int) - if last < i { r - part } else { 0 },
            forall|t: int| #[trigger]
                held(ranges@, t) <==> shown(flags@, i as int, last as int, part as int, r as int, t),
        decreases nb - i,
    {
        proof {
            vstd::arithmetic::mul::lemma_mul_inequality(i + 1, nb as int, r as int);
            vstd::arithmetic::mul::lemma_mul_is_distributive_add_other_way(r as int, i as int, 1);
            vstd::arithmetic::mul::lemma_mul_is_distributive_add(r as int, marked(flags@, i as int), 1);
            assert((i + 1) * r == i * r + r);
            assert(0 <= i * r) by (nonlinear_arith);
        }
        let ghost before = ranges@;
        let len: usize = if !flags[i] {
            0
        } else if i == last {
            part
        } else {
            r
        };
        push_range(ranges, (i * r) as u32, len as u32);
        proof {
            assert forall|t: int| #[trigger] held(ranges@, t) <==> shown(
                flags@,
                i + 1,
                last as int,
                part as int,
                r as int,
                t,
            ) by {
                assert(held(before, t) <==> shown(flags@, i as int, last as int, part as int, r as int, t));
                if i * r <= t < (i + 1) * r {
                    lemma_block_of(t, i as int, r as int);
                }
                if 0 <= t < i * r {
                    assert(!(i * r <= t));
                }
            }
        }
        i = i + 1;
    }
    let ghost front = ranges@;
    push_range(ranges, start as u32, tail as u32);
    proof {
        let p = pos as int;
        let k = top_k as int;
        let ri = r as int;
        assert(start == tail_start(p, ri));
        assert(free == slots(p, ri, k));
        assert(need == blocks_seen(p, ri, k));
        assert(total(ranges@) == top_k + r - 1) by {
            vstd::arithmetic::mul::lemma_mul_is_distributive_add(ri, whole as int, 1);
            vstd::arithmetic::mul::lemma_mul_is_commutative(ri, whole as int);
        }
        assert forall|t: int| #[trigger] held(ranges@, t) <==> sees(best@, p, ri, k, t) by {
            assert(held(front, t) <==> shown(flags@, nb as int, last as int, part as int, ri, t));
            if 0 <= t < start {
                lemma_in_block(t, nb as int, ri);
                let x = t / ri;
                if flags@[x] {
                    let a = choose|a: int| 0 <= a < best@.len() && (#[trigger] best@[a]).index == x;
                    assert(best@[a].index == t / ri);
                    if part > 0 {
                        assert((x == last) <==> (a == need - 1)) by {
                            if x == last && a != need - 1 {
                                assert(best@[a].index != best@[need - 1].index);
                            }
                        }
                    }
                }
                if exists|a: int|
                    0 <= a < best@.len() && (#[trigger] best@[a]).index == t / ri && (a < best@.len() - 1 || part == 0
                        || t % ri < part) {
                    let a = choose|a: int|
                        0 <= a < best@.len() && (#[trigger] best@[a]).index == t / ri && (a < best@.len() - 1
                            || part == 0 || t % ri < part);
                    assert(flags@[x]);
                    if part > 0 && a < need - 1 {
                        assert(best@[a].index != best@[need - 1].index);
                    }
                }
            }
        }
        assert(best_of(best@, some, nb as int, FLOOR));
    }
    true
}

proof fn lemma_block_of(t: int, i: int, r: int)
    requires
        r > 0,
        i >= 0,
        i * r <= t < (i + 1) * r,
    ensures
        t / r == i,
        t % r == t - i * r,
{
    assert((i + 1) * r == i * r + r) by (nonlinear_arith);
    vstd::arithmetic::div_mod::lemma_fundamental_div_mod_converse(t, r, i, t - i * r);
}

proof fn lemma_in_block(t: int, nb: int, r: int)
    requires
        r > 0,
        0 <= t < nb * r,
    ensures
        0 <= t / r < nb,
{
    vstd::arithmetic::div_mod::lemma_div_pos_is_pos(t, r);
    vstd::arithmetic::div_mod::lemma_fundamental_div_mod(t, r);
    vstd::arithmetic::div_mod::lemma_mod_bound(t, r);
    let q = t / r;
    assert(q < nb) by (nonlinear_arith)
        requires
            r * q <= t,
            t < nb * r,
            r > 0,
    ;
}

/// The blocks that a query sees are settled by the scores: two choices of the best are the same.
pub proof fn law_seen_blocks_are_settled(a: Seq<Slot>, b: Seq<Slot>, keys: Seq<i64>, pos: int, r: int, top_k: int, t: int)
    requires
        a.len() == b.len(),
        keys.len() <= u32::MAX,
        best_of(a, keys, keys.len() as int, FLOOR),
        best_of(b, keys, keys.len() as int, FLOOR),
    ensures
        sees(a, pos, r, top_k, t) == sees(b, pos, r, top_k, t),
{
    assert forall|p: int| 0 <= p < a.len() implies a[p] == b[p] by {
        law_best_is_unique(a, b, keys, FLOOR, p);
    }
    assert(a =~= b);
}

/// A query sees every token of the incomplete block it stands in, and no token behind itself.
pub proof fn law_query_sees_its_tail_and_nothing_later(best: Seq<Slot>, pos: int, r: int, top_k: int, t: int)
    requires
        r > 0,
        pos >= 0,
    ensures
        tail_start(pos, r) <= t <= pos ==> sees(best, pos, r, top_k, t),
        t > pos ==> !sees(best, pos, r, top_k, t),
{
    vstd::arithmetic::div_mod::lemma_fundamental_div_mod(pos + 1, r);
    vstd::arithmetic::div_mod::lemma_mod_bound(pos + 1, r);
    vstd::arithmetic::mul::lemma_mul_is_commutative(r, (pos + 1) / r);
}

/// A query sees everything up to itself as long as that is no more than its budget; beyond that, the
/// tokens of its own block and so many slots of complete blocks as fill the budget.
pub proof fn law_budget_of_a_query(pos: int, r: int, top_k: int)
    requires
        r > 0,
        pos >= 0,
        top_k >= 0,
    ensures
        sparse(pos, r, top_k) <==> pos + 1 > top_k + r - 1,
        tail_start(pos, r) % r == 0,
        0 <= pos + 1 - tail_start(pos, r) < r,
        slots(pos, r, top_k) + (pos + 1 - tail_start(pos, r)) == top_k + r - 1,
        top_k <= slots(pos, r, top_k),
        (blocks_seen(pos, r, top_k) - 1) * r < slots(pos, r, top_k) <= blocks_seen(pos, r, top_k) * r
            || slots(pos, r, top_k) == 0,
{
    vstd::arithmetic::div_mod::lemma_fundamental_div_mod(pos + 1, r);
    vstd::arithmetic::div_mod::lemma_mod_bound(pos + 1, r);
    let k = (pos + 1) / r;
    assert(k * r == r * k) by (nonlinear_arith);
    vstd::arithmetic::div_mod::lemma_mod_multiples_basic(k, r);
    let s = slots(pos, r, top_k);
    vstd::arithmetic::div_mod::lemma_fundamental_div_mod(s, r);
    vstd::arithmetic::div_mod::lemma_mod_bound(s, r);
    let d = s / r;
    assert(d * r == r * d && (d - 1) * r == d * r - r && (d + 1) * r == d * r + r) by (nonlinear_arith);
}

/// Of the blocks that were chosen all tokens are seen, but of the last of them only as many as slots
/// are left; of other complete blocks none.
pub proof fn law_chosen_blocks_are_seen(best: Seq<Slot>, pos: int, r: int, top_k: int, a: int, t: int)
    requires
        r > 0,
        pos >= 0,
        0 <= t < tail_start(pos, r),
        forall|x: int, y: int|
            0 <= x < y < best.len() ==> (#[trigger] best[x]).index != (#[trigger] best[y]).index,
    ensures
        0 <= a < best.len() - 1 && best[a].index == t / r ==> sees(best, pos, r, top_k, t),
        0 <= a == best.len() - 1 && best[a].index == t / r ==> sees(best, pos, r, top_k, t) == (slots(
            pos,
            r,
            top_k,
        ) % r == 0 || t % r < slots(pos, r, top_k) % r),
        (forall|x: int| 0 <= x < best.len() ==> (#[trigger] best[x]).index != t / r) ==> !sees(
            best,
            pos,
            r,
            top_k,
            t,
        ),
{
}

} // verus!
