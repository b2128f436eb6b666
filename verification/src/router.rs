//! Expert routing: which experts a token is sent to. Scores are given by their order keys; weights
//! are the caller's.
use crate::order::{is_nan, key_of_bits, order_key};
use crate::text::{decimal, owned, push_decimal, push_text};
use vstd::prelude::*;

verus! {

/// The most experts that any policy may select.
pub const MOE_K_MAX: usize = 32;

/// What the mass of the chosen experts is measured against.
#[derive(Clone, Copy, Debug, PartialEq, Eq, Structural, Default)]
pub enum MassBasis {
    /// All experts.
    All,
    /// The best experts up to the most that may be chosen, renormalised.
    #[default]
    Top,
}

impl MassBasis {
    pub open spec fn text(self) -> Seq<char> {
        match self {
            MassBasis::Top => "top"@,
            MassBasis::All => "all"@,
        }
    }
}

/// Experts are taken in descending order until their mass reaches `mass`, at least `min` and at most
/// `max` of them.
#[derive(Clone, Copy, Debug, PartialEq)]
pub struct MoePolicy<F> {
    pub min: usize,
    pub max: usize,
    pub mass: F,
    pub basis: MassBasis,
}

/// The smaller of two counts.
pub open spec fn smaller(a: usize, b: usize) -> usize {
    if a < b { a } else { b }
}

/// Whether bits stand for a number above zero.
pub open spec fn above_zero(bits: u32) -> bool {
    !is_nan(bits) && key_of_bits(bits) > 0
}

/// Why a policy is refused for a model of so many experts. The mass is given by its bits and by its
/// text.
pub open spec fn policy_flaw(min: usize, max: usize, n_expert: usize, bits: u32, mass: Seq<char>) -> Option<
    Seq<char>,
> {
    if min < 1 || min > max {
        Some(
            "moe policy: need 1 <= min ("@ + decimal(min as nat) + ") <= max ("@ + decimal(max as nat) + ")"@,
        )
    } else if max > MOE_K_MAX || max > n_expert {
        Some(
            "moe policy: max ("@ + decimal(max as nat) + ") above the limit ("@ + decimal(
                smaller(MOE_K_MAX, n_expert) as nat,
            ) + ")"@,
        )
    } else if !above_zero(bits) {
        Some("moe policy: target mass ("@ + mass + ") must be positive"@)
    } else {
        None
    }
}

impl<F> MoePolicy<F> {
    /// Check against the model's expert count; `bits` and `mass` are the bits and the text of the
    /// target mass.
    pub fn validate(&self, n_expert: usize, bits: u32, mass: &str) -> (r: Result<(), String>)
        ensures
            match policy_flaw(self.min, self.max, n_expert, bits, mass@) {
                None => r is Ok,
                Some(m) => r matches Err(e) && e@ == m,
            },
    {
        if self.min < 1 || self.min > self.max {
            let mut e: String = owned("moe policy: need 1 <= min (");
            push_decimal(&mut e, self.min as u64);
            push_text(&mut e, ") <= max (");
            push_decimal(&mut e, self.max as u64);
            push_text(&mut e, ")");
            return Err(e);
        }
        if self.max > MOE_K_MAX || self.max > n_expert {
            let limit: usize = if MOE_K_MAX < n_expert { MOE_K_MAX } else { n_expert };
            let mut e: String = owned("moe policy: max (");
            push_decimal(&mut e, self.max as u64);
            push_text(&mut e, ") above the limit (");
            push_decimal(&mut e, limit as u64);
            push_text(&mut e, ")");
            return Err(e);
        }
        let positive: bool = match order_key(bits) {
            Some(k) => k > 0,
            None => false,
        };
        if !positive {
            let mut e: String = owned("moe policy: target mass (");
            push_text(&mut e, mass);
            push_text(&mut e, ") must be positive");
            return Err(e);
        }
        Ok(())
    }
}

/// How experts are chosen, as far as it is set: `mass` enables the policy.
#[derive(Clone, Copy, Debug, Default, PartialEq)]
pub struct MoeArgs<F> {
    pub mass: Option<F>,
    pub min: Option<usize>,
    pub max: Option<usize>,
    pub basis: MassBasis,
}

/// A count, or its default where it is not set.
pub open spec fn count_or(v: Option<usize>, d: usize) -> usize {
    match v {
        Some(n) => n,
        None => d,
    }
}

impl<F: Copy> MoeArgs<F> {
    /// The policy for a model of `n_expert` experts that uses `n_expert_used` by itself; none where
    /// the policy is off. `bits` and `mass` are the bits and the text of the target mass.
    pub fn resolve(&self, n_expert_used: usize, n_expert: usize, bits: u32, mass: &str) -> (r: Result<
        Option<MoePolicy<F>>,
        String,
    >)
        ensures
            match self.mass {
                None => if self.min is Some || self.max is Some {
                    r matches Err(e) && e@ == "--moe-min / --moe-max need --moe-mass"@
                } else {
                    r matches Ok(None)
                },
                Some(m) => match policy_flaw(
                    count_or(self.min, 1),
                    count_or(self.max, n_expert_used),
                    n_expert,
                    bits,
                    mass@,
                ) {
                    Some(flaw) => r matches Err(e) && e@ == flaw,
                    None => r matches Ok(Some(p)) && p.min == count_or(self.min, 1) && p.max == count_or(
                        self.max,
                        n_expert_used,
                    ) && p.mass == m && p.basis == self.basis,
                },
            },
    {
        let target: F = match self.mass {
            None => {
                if self.min.is_some() || self.max.is_some() {
                    return Err(owned("--moe-min / --moe-max need --moe-mass"));
                }
                return Ok(None);
            },
            Some(m) => m,
        };
        let min: usize = match self.min {
            Some(n) => n,
            None => 1,
        };
        let max: usize = match self.max {
            Some(n) => n,
            None => n_expert_used,
        };
        let p: MoePolicy<F> = MoePolicy { min, max, mass: target, basis: self.basis };
        match p.validate(n_expert, bits, mass) {
            Err(e) => Err(e),
            Ok(_) => Ok(Some(p)),
        }
    }
}

/// A policy that passes its check never asks for more experts than there are, or for none.
pub proof fn law_checked_policy_is_within_limits(
    min: usize,
    max: usize,
    n_expert: usize,
    bits: u32,
    mass: Seq<char>,
)
    requires
        policy_flaw(min, max, n_expert, bits, mass) is None,
    ensures
        1 <= min <= max <= MOE_K_MAX,
        max <= n_expert,
        above_zero(bits),
{
}

/// An expert among the best: its score's key and its number.
#[derive(Clone, Copy, Debug, PartialEq, Eq, Structural)]
pub struct Slot {
    pub key: i64,
    pub index: u32,
}

/// The slot of no expert.
pub open spec fn no_expert(floor: i64) -> Slot {
    Slot { key: floor, index: u32::MAX }
}

/// Whether one expert comes before another: by the higher score, and of equal ones by the lower number.
pub open spec fn ahead(a: Slot, b: Slot) -> bool {
    a.key > b.key || (a.key == b.key && a.index < b.index)
}

/// Whether the slots hold the best of the first `n` experts: those above the floor in order, free
/// slots behind them, and no expert left out that comes before one that is in.
pub open spec fn best_of(r: Seq<Slot>, keys: Seq<i64>, n: int, floor: i64) -> bool {
    &&& forall|a: int|
        0 <= a < r.len() ==> (#[trigger] r[a] == no_expert(floor) || (r[a].index < n && r[a].key
            == keys[r[a].index as int] && r[a].key > floor))
    &&& forall|a: int, b: int|
        0 <= a < b < r.len() && (#[trigger] r[b]) != no_expert(floor) ==> (#[trigger] r[a])
            != no_expert(floor) && ahead(r[a], r[b])
    &&& r.len() > 0 ==> forall|i: int|
        0 <= i < n && #[trigger] keys[i] > floor ==> ((exists|a: int|
            0 <= a < r.len() && (#[trigger] r[a]).index == i) || (r.last() != no_expert(floor) && ahead(
            r.last(),
            Slot { key: keys[i], index: i as u32 },
        )))
}

/// How many of the first `n` scores are above the floor.
pub open spec fn above(keys: Seq<i64>, n: int, floor: i64) -> int
    decreases n,
{
    if n <= 0 {
        0
    } else if keys[n - 1] > floor {
        above(keys, n - 1, floor) + 1
    } else {
        above(keys, n - 1, floor)
    }
}

proof fn lemma_above(keys: Seq<i64>, n: int, floor: i64)
    ensures
        0 <= above(keys, n, floor),
    decreases n,
{
    if n > 0 {
        lemma_above(keys, n - 1, floor);
    }
}

/// Whether exactly the first of the slots hold an expert, as many as there are above the floor.
pub open spec fn filled(r: Seq<Slot>, keys: Seq<i64>, n: int, floor: i64) -> bool {
    forall|a: int|
        0 <= a < r.len() ==> ((#[trigger] r[a] != no_expert(floor)) <==> a < above(keys, n, floor))
}

/// The best `k` experts by their scores, in descending order; of equal scores the lower number first.
/// Scores that are not above the floor are passed over, and the slots that they leave free say so.
pub fn topk_sorted(keys: &[i64], k: usize, floor: i64) -> (r: Vec<Slot>)
    requires
        1 <= k <= keys@.len(),
        keys@.len() <= u32::MAX,
    ensures
        r@.len() == k,
        best_of(r@, keys@, keys@.len() as int, floor),
        filled(r@, keys@, keys@.len() as int, floor),
{
    let n: usize = keys.len();
    let mut r: Vec<Slot> = Vec::new();
    while r.len() < k
        invariant
            r@.len() <= k,
            forall|a: int| 0 <= a < r@.len() ==> #[trigger] r@[a] == no_expert(floor),
        decreases k - r@.len(),
    {
        r.push(Slot { key: floor, index: u32::MAX });
    }
    let mut i: usize = 0;
    while i < n
        invariant
            n == keys@.len(),
            n <= u32::MAX,
            i <= n,
            1 <= k,
            r@.len() == k,
            best_of(r@, keys@, i as int, floor),
            filled(r@, keys@, i as int, floor),
        decreases n - i,
    {
        let v: i64 = keys[i];
        let ghost before = r@;
        if v > r[k - 1].key {
            let new: Slot = Slot { key: v, index: i as u32 };
            let mut p: usize = k - 1;
            while p > 0 && r[p - 1].key < v
                invariant
                    1 <= k,
                    p < k,
                    r@.len() == k,
                    before.len() == k,
                    forall|a: int| 0 <= a < p ==> r@[a] == before[a],
                    r@[p as int] == before[p as int] || p < k - 1,
                    forall|a: int| p < a < k ==> r@[a] == before[a - 1],
                    forall|a: int| p <= a < k ==> (#[trigger] before[a]).key < v,
                decreases p,
            {
                let s: Slot = r[p - 1];
                r.set(p, s);
                p = p - 1;
            }
            r.set(p, new);
            proof {
                lemma_inserted(before, r@, keys@, i as int, floor, p as int, new);
                lemma_above(keys@, i as int, floor);
                assert(before[k - 1] == no_expert(floor) || before[k - 1].key > floor);
                assert forall|a: int| 0 <= a < k implies ((#[trigger] r@[a] != no_expert(floor)) <==> a < above(
                    keys@,
                    i + 1,
                    floor,
                )) by {
                    if a < p {
                        assert(r@[a] == before[a]);
                        assert(before[p - 1].key >= v);
                        assert(before[p - 1] != no_expert(floor));
                    } else if a > p {
                        assert(r@[a] == before[a - 1]);
                    } else if p > 0 {
                        assert(before[p - 1].key >= v);
                        assert(before[p - 1] != no_expert(floor));
                    }
                }
            }
        } else {
            proof {
                assert forall|x: int| 0 <= x < i + 1 && #[trigger] keys@[x] > floor implies ((exists|a: int|
                    0 <= a < r@.len() && (#[trigger] r@[a]).index == x) || (r@.last() != no_expert(floor)
                    && ahead(r@.last(), Slot { key: keys@[x], index: x as u32 }))) by {
                    if x == i {
                        assert(r@.last() == r@[k - 1]);
                        assert(r@[k - 1].key >= v);
                    }
                }
            }
        }
        i = i + 1;
    }
    r
}

proof fn lemma_inserted(
    before: Seq<Slot>,
    r: Seq<Slot>,
    keys: Seq<i64>,
    i: int,
    floor: i64,
    p: int,
    new: Slot,
)
    requires
        best_of(before, keys, i, floor),
        before.len() >= 1,
        r.len() == before.len(),
        0 <= p < r.len(),
        0 <= i < keys.len(),
        i < u32::MAX,
        new == (Slot { key: keys[i], index: i as u32 }),
        before.last().key < new.key,
        forall|a: int| 0 <= a < p ==> r[a] == before[a],
        r[p] == new,
        forall|a: int| p < a < r.len() ==> r[a] == before[a - 1],
        forall|a: int| p <= a < r.len() ==> (#[trigger] before[a]).key < new.key,
        p > 0 ==> before[p - 1].key >= new.key,
    ensures
        best_of(r, keys, i + 1, floor),
{
    let k = r.len();
    assert(before.last() == before[k - 1]);
    assert(before[k - 1].key >= floor) by {
        assert(before[k - 1] == no_expert(floor) || before[k - 1].key > floor);
    }
    assert forall|a: int| 0 <= a < r.len() implies (#[trigger] r[a] == no_expert(floor) || (r[a].index < i + 1
        && r[a].key == keys[r[a].index as int] && r[a].key > floor)) by {
        if a < p {
            assert(r[a] == before[a]);
        } else if a > p {
            assert(r[a] == before[a - 1]);
        }
    }
    assert forall|a: int, b: int|
        0 <= a < b < r.len() && (#[trigger] r[b]) != no_expert(floor) implies (#[trigger] r[a]) != no_expert(floor)
        && ahead(r[a], r[b]) by {
        if b < p {
            assert(r[a] == before[a] && r[b] == before[b]);
        } else if b == p {
            assert(r[a] == before[a]);
            assert(before[a] != no_expert(floor)) by {
                if a < p - 1 {
                    assert(before[p - 1] != no_expert(floor));
                }
            }
            if a < p - 1 {
                assert(ahead(before[a], before[p - 1]));
            }
            assert(before[a].index < i);
        } else {
            assert(r[b] == before[b - 1]);
            if a < p {
                assert(r[a] == before[a]);
            } else if a > p {
                assert(r[a] == before[a - 1]);
            }
        }
    }
    assert forall|x: int| 0 <= x < i + 1 && #[trigger] keys[x] > floor implies ((exists|a: int|
        0 <= a < r.len() && (#[trigger] r[a]).index == x) || (r.last() != no_expert(floor) && ahead(
        r.last(),
        Slot { key: keys[x], index: x as u32 },
    ))) by {
        if x == i {
            assert(r[p].index == x);
        } else {
            let s = Slot { key: keys[x], index: x as u32 };
            let last = r[k - 1];
            assert(r.last() == last);
            if exists|a: int| 0 <= a < before.len() && (#[trigger] before[a]).index == x {
                let a = choose|a: int| 0 <= a < before.len() && (#[trigger] before[a]).index == x;
                if a < p {
                    assert(r[a].index == x);
                } else if a + 1 < k {
                    assert(r[a + 1].index == x);
                } else {
                    assert(before[a] == s);
                    if p == k - 1 {
                        assert(last == new);
                    } else {
                        assert(last == before[k - 2]);
                        assert(ahead(before[k - 2], before[k - 1]));
                    }
                }
            } else {
                assert(ahead(before.last(), s));
                if p == k - 1 {
                    assert(last == new);
                } else {
                    assert(last == before[k - 2]);
                    assert(ahead(before[k - 2], before[k - 1]));
                }
            }
        }
    }
}

/// Two lists of the best are the same list.
pub proof fn law_best_is_unique(r: Seq<Slot>, s: Seq<Slot>, keys: Seq<i64>, floor: i64, p: int)
    requires
        r.len() == s.len(),
        keys.len() <= u32::MAX,
        best_of(r, keys, keys.len() as int, floor),
        best_of(s, keys, keys.len() as int, floor),
        0 <= p < r.len(),
    ensures
        r[p] == s[p],
    decreases p,
{
    assert forall|q: int| 0 <= q < p implies r[q] == s[q] by {
        law_best_is_unique(r, s, keys, floor, q);
    }
    if r[p] != s[p] {
        lemma_not_behind(r, s, keys, floor, p);
        lemma_not_behind(s, r, keys, floor, p);
    }
}

proof fn lemma_not_behind(r: Seq<Slot>, s: Seq<Slot>, keys: Seq<i64>, floor: i64, p: int)
    requires
        r.len() == s.len(),
        keys.len() <= u32::MAX,
        best_of(r, keys, keys.len() as int, floor),
        best_of(s, keys, keys.len() as int, floor),
        0 <= p < r.len(),
        forall|q: int| 0 <= q < p ==> r[q] == s[q],
        r[p] != s[p],
    ensures
        r[p] != no_expert(floor) ==> s[p] != no_expert(floor) && ahead(s[p], r[p]),
{
    if r[p] != no_expert(floor) {
        let x = r[p].index as int;
        assert(keys[x] > floor);
        if exists|a: int| 0 <= a < s.len() && (#[trigger] s[a]).index == x {
            let a = choose|a: int| 0 <= a < s.len() && (#[trigger] s[a]).index == x;
            assert(s[a] == r[p]);
            if a < p {
                assert(r[a] == s[a]);
                assert(ahead(r[a], r[p]));
            } else {
                assert(ahead(s[p], s[a]));
            }
        } else {
            assert(ahead(s.last(), r[p]));
            assert(s.last() == s[s.len() - 1]);
            if p < s.len() - 1 {
                assert(ahead(s[p], s[s.len() - 1]));
            }
        }
    }
}

/// How many experts are taken: the fewest within the limits that have the target mass, and the most
/// that may be where none have.
pub fn mass_count(min: usize, max: usize, reached: &[bool]) -> (n: usize)
    requires
        1 <= min <= max,
        max <= reached@.len(),
    ensures
        min <= n <= max,
        n == max || reached@[n - 1],
        forall|c: int| min <= c < n ==> !#[trigger] reached@[c - 1],
{
    let mut count: usize = 0;
    while count < max
        invariant
            1 <= min <= max,
            max <= reached@.len(),
            count <= max,
            forall|c: int| min <= c <= count ==> !#[trigger] reached@[c - 1],
        decreases max - count,
    {
        count = count + 1;
        if count >= min && reached[count - 1] {
            return count;
        }
    }
    count
}

/// Whether the bits of a 32-bit float are those of a number that is at least 1.
pub open spec fn at_least_one(bits: u32) -> bool {
    0x3f80_0000 <= bits <= 0x7f80_0000
}

impl<F> MoePolicy<F> {
    /// How many experts are taken, where `bits` are those of the target mass: as many as may be for
    /// a mass of 1 or more, else the fewest within the limits that have it.
    pub fn experts(&self, bits: u32, reached: &[bool]) -> (n: usize)
        requires
            1 <= self.min <= self.max,
            self.max <= reached@.len(),
        ensures
            self.min <= n <= self.max,
            at_least_one(bits) ==> n == self.max,
            !at_least_one(bits) ==> (n == self.max || reached@[n - 1]) && forall|c: int|
                self.min <= c < n ==> !#[trigger] reached@[c - 1],
    {
        if 0x3f80_0000 <= bits && bits <= 0x7f80_0000 {
            self.max
        } else {
            mass_count(self.min, self.max, reached)
        }
    }
}

/// The best come in the order of their scores, of equal ones the lower number first; and whoever is
/// left out has no better score than the last of them, nor the same with a lower number.
pub proof fn law_best_come_in_order(r: Seq<Slot>, keys: Seq<i64>, floor: i64, a: int, b: int, i: int)
    requires
        keys.len() <= u32::MAX,
        best_of(r, keys, keys.len() as int, floor),
        0 <= a < b < r.len(),
        r[b].index != u32::MAX,
        0 <= i < keys.len(),
        keys[i] > floor,
        forall|x: int| 0 <= x < r.len() ==> (#[trigger] r[x]).index != i,
    ensures
        r[a].key > r[b].key || (r[a].key == r[b].key && r[a].index < r[b].index),
        r[b].key == keys[r[b].index as int],
        r.last().key > keys[i] || (r.last().key == keys[i] && r.last().index < i),
{
    assert(r[b] != no_expert(floor));
    assert(keys[i] > floor);
}

/// A policy is accepted exactly where its limits are in order and within what there is, and its mass
/// is above zero.
pub proof fn law_accepted_policies(min: usize, max: usize, n_expert: usize, bits: u32, mass: Seq<char>)
    ensures
        policy_flaw(min, max, n_expert, bits, mass) is None <==> 1 <= min <= max && max <= MOE_K_MAX && max
            <= n_expert && 0 < bits <= 0x7f80_0000,
{
}

/// A count that is given holds, and the other stands in only where none is.
pub proof fn law_given_count_holds(v: Option<usize>, d: usize)
    ensures
        v matches Some(n) ==> count_or(v, d) == n,
        v is None ==> count_or(v, d) == d,
        MassBasis::Top.text() == "top"@,
        MassBasis::All.text() == "all"@,
{
}

} // verus!
