//! The objects of a store in the order of their last use, least recent first: finding, using,
//! expiring and evicting them.
use crate::object::{law_names_distinct, Kind, MetaView};
use crate::policy::{Policies, PRIORITY_MAX};
use vstd::prelude::*;

verus! {

/// Whether `m` is the object of that key and kind.
pub open spec fn is_at(m: MetaView, key: Seq<u8>, kind: Kind) -> bool {
    m.key == key && m.kind == kind
}

/// The position of the object of that key and kind.
pub open spec fn position(s: Seq<MetaView>, key: Seq<u8>, kind: Kind) -> Option<int>
    decreases s.len(),
{
    if s.len() == 0 {
        None
    } else if is_at(s.last(), key, kind) {
        Some(s.len() - 1)
    } else {
        position(s.drop_last(), key, kind)
    }
}

/// The object of that key and kind.
pub open spec fn lookup(s: Seq<MetaView>, key: Seq<u8>, kind: Kind) -> Option<MetaView> {
    match position(s, key, kind) {
        Some(i) => Some(s[i]),
        None => None,
    }
}

/// No two objects have the same key and kind.
pub open spec fn distinct(s: Seq<MetaView>) -> bool {
    forall|i: int, j: int|
        0 <= i < j < s.len() ==> !((#[trigger] s[i]).key == (#[trigger] s[j]).key && s[i].kind
            == s[j].kind)
}

/// Keys have sixteen bytes.
pub open spec fn sized(s: Seq<MetaView>) -> bool {
    forall|i: int| 0 <= i < s.len() ==> (#[trigger] s[i]).key.len() == 16
}

/// The bytes that the objects occupy.
pub open spec fn total(s: Seq<MetaView>) -> nat
    decreases s.len(),
{
    if s.len() == 0 {
        0
    } else {
        total(s.drop_last()) + s.last().footprint()
    }
}

/// The objects after the one at `i` was used at `now`: it becomes the most recent.
pub open spec fn used(s: Seq<MetaView>, i: int, now: u64) -> Seq<MetaView> {
    s.remove(i).push(s[i].used_at(now))
}

/// The objects after the one of that key and kind, if there is one, was used at `now`.
pub open spec fn touched(s: Seq<MetaView>, key: Seq<u8>, kind: Kind, now: u64) -> Seq<MetaView> {
    match position(s, key, kind) {
        Some(i) => used(s, i, now),
        None => s,
    }
}

/// The objects without the one of that key and kind.
pub open spec fn without(s: Seq<MetaView>, key: Seq<u8>, kind: Kind) -> Seq<MetaView> {
    match position(s, key, kind) {
        Some(i) => s.remove(i),
        None => s,
    }
}

/// The objects with `m` as the most recent, in place of an earlier one of its key and kind.
pub open spec fn added(s: Seq<MetaView>, m: MetaView) -> Seq<MetaView> {
    without(s, m.key, m.kind).push(m)
}

/// The eviction tier of an object: its role's priority, 9 at most.
pub open spec fn tier(p: Policies, m: MetaView) -> u8 {
    let x = p.applied(m.role).priority;
    if x > PRIORITY_MAX { PRIORITY_MAX } else { x }
}

/// Whether an object has been idle at `now` for longer than its role allows.
pub open spec fn idle_out(p: Policies, m: MetaView, now: u64) -> bool {
    match p.applied(m.role).ttl {
        Some(ttl) => now - m.last_used > ttl,
        None => false,
    }
}

/// The objects that have not idled out.
pub open spec fn alive(s: Seq<MetaView>, p: Policies, now: u64) -> Seq<MetaView>
    decreases s.len(),
{
    if s.len() == 0 {
        Seq::empty()
    } else if idle_out(p, s.last(), now) {
        alive(s.drop_last(), p, now)
    } else {
        alive(s.drop_last(), p, now).push(s.last())
    }
}

/// The names of the objects that have idled out, least recent first.
pub open spec fn idle_names(s: Seq<MetaView>, p: Policies, now: u64) -> Seq<Seq<char>>
    decreases s.len(),
{
    if s.len() == 0 {
        Seq::empty()
    } else if idle_out(p, s.last(), now) {
        idle_names(s.drop_last(), p, now).push(s.last().name())
    } else {
        idle_names(s.drop_last(), p, now)
    }
}

/// The next object to evict: of the lowest tier the least recently used.
pub open spec fn victim(s: Seq<MetaView>, p: Policies) -> int
    decreases s.len(),
{
    if s.len() <= 1 {
        0
    } else {
        let v = victim(s.drop_last(), p);
        if tier(p, s.last()) < tier(p, s[v]) { s.len() - 1 } else { v }
    }
}

/// The objects that remain when victims are dropped until the rest fits the budget.
pub open spec fn kept(s: Seq<MetaView>, p: Policies, budget: u64) -> Seq<MetaView>
    decreases s.len(),
{
    if s.len() == 0 || total(s) <= budget {
        s
    } else {
        let v = victim(s, p);
        if 0 <= v < s.len() { kept(s.remove(v), p, budget) } else { s }
    }
}

/// The names of the objects dropped, in the order in which they go.
pub open spec fn evicted_names(s: Seq<MetaView>, p: Policies, budget: u64) -> Seq<Seq<char>>
    decreases s.len(),
{
    if s.len() == 0 || total(s) <= budget {
        Seq::empty()
    } else {
        let v = victim(s, p);
        if 0 <= v < s.len() {
            seq![s[v].name()] + evicted_names(s.remove(v), p, budget)
        } else {
            Seq::empty()
        }
    }
}

/// The numbers of use that go with the objects, after the one at `i` was used with number `next`.
pub open spec fn used_seqs(q: Seq<u64>, i: int, next: u64) -> Seq<u64> {
    q.remove(i).push(next)
}

/// The numbers of use after the object of that key and kind, if there is one, was used.
pub open spec fn touched_seqs(s: Seq<MetaView>, q: Seq<u64>, key: Seq<u8>, kind: Kind, next: u64) -> Seq<
    u64,
> {
    match position(s, key, kind) {
        Some(i) => used_seqs(q, i, next),
        None => q,
    }
}

/// The numbers of use without that of the object of that key and kind.
pub open spec fn without_seqs(s: Seq<MetaView>, q: Seq<u64>, key: Seq<u8>, kind: Kind) -> Seq<u64> {
    match position(s, key, kind) {
        Some(i) => q.remove(i),
        None => q,
    }
}

/// The numbers of use of the objects that have not idled out.
pub open spec fn alive_seqs(s: Seq<MetaView>, q: Seq<u64>, p: Policies, now: u64) -> Seq<u64>
    decreases s.len(),
{
    if s.len() == 0 {
        Seq::empty()
    } else if idle_out(p, s.last(), now) {
        alive_seqs(s.drop_last(), q.drop_last(), p, now)
    } else {
        alive_seqs(s.drop_last(), q.drop_last(), p, now).push(q.last())
    }
}

/// The numbers of use of the objects that remain when victims are dropped until the rest fits the
/// budget.
pub open spec fn kept_seqs(s: Seq<MetaView>, q: Seq<u64>, p: Policies, budget: u64) -> Seq<u64>
    decreases s.len(),
{
    if s.len() == 0 || total(s) <= budget {
        q
    } else {
        let v = victim(s, p);
        if 0 <= v < s.len() { kept_seqs(s.remove(v), q.remove(v), p, budget) } else { q }
    }
}

/// Whether the numbers of use grow from one object to the next, up to `last`.
pub open spec fn growing(q: Seq<u64>, last: u64) -> bool {
    &&& forall|i: int, j: int| 0 <= i < j < q.len() ==> #[trigger] q[i] < #[trigger] q[j]
    &&& forall|i: int| 0 <= i < q.len() ==> #[trigger] q[i] <= last
}

pub proof fn lemma_position(s: Seq<MetaView>, key: Seq<u8>, kind: Kind)
    ensures
        match position(s, key, kind) {
            Some(i) => 0 <= i < s.len() && is_at(s[i], key, kind),
            None => forall|i: int| 0 <= i < s.len() ==> !is_at(#[trigger] s[i], key, kind),
        },
    decreases s.len(),
{
    if s.len() > 0 && !is_at(s.last(), key, kind) {
        lemma_position(s.drop_last(), key, kind);
        assert forall|i: int| 0 <= i < s.len() && position(s, key, kind) is None implies !is_at(
            #[trigger] s[i],
            key,
            kind,
        ) by {
            if i < s.len() - 1 {
                assert(s.drop_last()[i] == s[i]);
            }
        }
    }
}

pub proof fn lemma_total_remove(s: Seq<MetaView>, i: int)
    requires
        0 <= i < s.len(),
    ensures
        total(s.remove(i)) + s[i].footprint() == total(s),
    decreases s.len(),
{
    let r = s.remove(i);
    if i == s.len() - 1 {
        assert(r =~= s.drop_last());
    } else {
        lemma_total_remove(s.drop_last(), i);
        assert(r.drop_last() =~= s.drop_last().remove(i));
        assert(r.last() == s.last());
    }
}

pub proof fn lemma_distinct_remove(s: Seq<MetaView>, i: int)
    requires
        distinct(s),
        0 <= i < s.len(),
    ensures
        distinct(s.remove(i)),
        forall|j: int|
            0 <= j < s.len() - 1 ==> !is_at(#[trigger] s.remove(i)[j], s[i].key, s[i].kind),
{
    let r = s.remove(i);
    assert forall|a: int, b: int| 0 <= a < b < r.len() implies !((#[trigger] r[a]).key == (
    #[trigger] r[b]).key && r[a].kind == r[b].kind) by {
        let x = if a < i { a } else { a + 1 };
        let y = if b < i { b } else { b + 1 };
        assert(r[a] == s[x] && r[b] == s[y]);
    }
    assert forall|j: int| 0 <= j < r.len() implies !is_at(#[trigger] r[j], s[i].key, s[i].kind) by {
        if j < i {
            assert(r[j] == s[j]);
        } else {
            assert(r[j] == s[j + 1]);
        }
    }
}

pub proof fn lemma_distinct_push(s: Seq<MetaView>, m: MetaView)
    requires
        distinct(s),
        position(s, m.key, m.kind) is None,
    ensures
        distinct(s.push(m)),
{
    lemma_position(s, m.key, m.kind);
    let r = s.push(m);
    assert forall|a: int, b: int| 0 <= a < b < r.len() implies !((#[trigger] r[a]).key == (
    #[trigger] r[b]).key && r[a].kind == r[b].kind) by {
        if b == s.len() {
            assert(!is_at(s[a], m.key, m.kind));
        }
    }
}

/// Using an object keeps the list free of repetitions and its total.
pub proof fn lemma_used(s: Seq<MetaView>, i: int, now: u64)
    requires
        distinct(s),
        0 <= i < s.len(),
    ensures
        distinct(used(s, i, now)),
        total(used(s, i, now)) == total(s),
        used(s, i, now).len() == s.len(),
{
    lemma_distinct_remove(s, i);
    lemma_total_remove(s, i);
    let r = s.remove(i);
    let m = s[i].used_at(now);
    lemma_position(r, m.key, m.kind);
    lemma_distinct_push(r, m);
    assert(r.push(m).drop_last() =~= r);
}

pub proof fn lemma_touched(s: Seq<MetaView>, key: Seq<u8>, kind: Kind, now: u64)
    requires
        distinct(s),
    ensures
        distinct(touched(s, key, kind, now)),
        total(touched(s, key, kind, now)) == total(s),
        touched(s, key, kind, now).len() == s.len(),
{
    lemma_position(s, key, kind);
    if let Some(i) = position(s, key, kind) {
        lemma_used(s, i, now);
    }
}

pub proof fn lemma_without(s: Seq<MetaView>, key: Seq<u8>, kind: Kind)
    requires
        distinct(s),
    ensures
        distinct(without(s, key, kind)),
        position(without(s, key, kind), key, kind) is None,
        total(without(s, key, kind)) <= total(s),
{
    lemma_position(s, key, kind);
    if let Some(i) = position(s, key, kind) {
        lemma_distinct_remove(s, i);
        lemma_total_remove(s, i);
        lemma_position(s.remove(i), key, kind);
    }
}

pub proof fn lemma_added(s: Seq<MetaView>, m: MetaView)
    requires
        distinct(s),
    ensures
        distinct(added(s, m)),
        total(added(s, m)) == total(without(s, m.key, m.kind)) + m.footprint(),
{
    lemma_without(s, m.key, m.kind);
    let r = without(s, m.key, m.kind);
    lemma_distinct_push(r, m);
    assert(r.push(m).drop_last() =~= r);
}

pub proof fn lemma_alive(s: Seq<MetaView>, p: Policies, now: u64)
    ensures
        distinct(s) ==> distinct(alive(s, p, now)),
        total(alive(s, p, now)) <= total(s),
        alive(s, p, now).len() <= s.len(),
        forall|i: int|
            0 <= i < alive(s, p, now).len() ==> s.contains(#[trigger] alive(s, p, now)[i])
                && !idle_out(p, alive(s, p, now)[i], now),
        forall|i: int|
            0 <= i < s.len() && !idle_out(p, #[trigger] s[i], now) ==> alive(s, p, now).contains(
                s[i],
            ),
    decreases s.len(),
{
    if s.len() > 0 {
        let h = s.drop_last();
        lemma_alive(h, p, now);
        let a = alive(h, p, now);
        let r = alive(s, p, now);
        if distinct(s) {
            assert(distinct(h));
        }
        if !idle_out(p, s.last(), now) {
            assert(a.push(s.last()).drop_last() =~= a);
            if distinct(s) {
                let m = s.last();
                lemma_position(a, m.key, m.kind);
                if let Some(k) = position(a, m.key, m.kind) {
                    assert(h.contains(a[k]));
                    let q = choose|q: int| 0 <= q < h.len() && h[q] == a[k];
                    assert(s[q] == h[q]);
                    assert(!(s[q].key == s[s.len() - 1].key && s[q].kind == s[s.len() - 1].kind));
                }
                lemma_distinct_push(a, m);
            }
        }
        assert forall|i: int| 0 <= i < r.len() implies s.contains(#[trigger] r[i]) && !idle_out(
            p,
            r[i],
            now,
        ) by {
            if i < a.len() {
                assert(h.contains(a[i]));
                let q = choose|q: int| 0 <= q < h.len() && h[q] == a[i];
                assert(s[q] == a[i]);
                assert(r[i] == a[i]);
            } else {
                assert(s[s.len() - 1] == r[i]);
            }
        }
        assert forall|i: int| 0 <= i < s.len() && !idle_out(p, #[trigger] s[i], now) implies r.contains(
            s[i],
        ) by {
            if i < s.len() - 1 {
                assert(h[i] == s[i]);
                assert(a.contains(h[i]));
                let q = choose|q: int| 0 <= q < a.len() && a[q] == h[i];
                assert(r[q] == s[i]);
            } else {
                assert(r[r.len() - 1] == s[i]);
            }
        }
    }
}

/// Nothing expires where no role has a time to live.
pub proof fn lemma_nothing_idle(s: Seq<MetaView>, p: Policies, now: u64)
    requires
        forall|r: crate::role::Role| (#[trigger] p.policy(r)).ttl is None,
    ensures
        alive(s, p, now) == s,
        idle_names(s, p, now) == Seq::<Seq<char>>::empty(),
    decreases s.len(),
{
    if s.len() > 0 {
        lemma_nothing_idle(s.drop_last(), p, now);
        if let Some(r) = s.last().role {
            assert(p.policy(r).ttl is None);
        }
        assert(s.drop_last().push(s.last()) =~= s);
    } else {
        assert(alive(s, p, now) =~= s);
    }
}

pub proof fn lemma_victim(s: Seq<MetaView>, p: Policies)
    requires
        s.len() > 0,
    ensures
        0 <= victim(s, p) < s.len(),
        forall|i: int| 0 <= i < s.len() ==> tier(p, s[victim(s, p)]) <= tier(p, #[trigger] s[i]),
        forall|i: int| 0 <= i < victim(s, p) ==> tier(p, s[victim(s, p)]) < tier(p, #[trigger] s[i]),
    decreases s.len(),
{
    if s.len() > 1 {
        let h = s.drop_last();
        lemma_victim(h, p);
        let v = victim(h, p);
        assert(forall|i: int| 0 <= i < h.len() ==> h[i] == s[i]);
        assert forall|i: int| 0 <= i < s.len() implies tier(p, s[victim(s, p)]) <= tier(
            p,
            #[trigger] s[i],
        ) by {
            if i < s.len() - 1 {
                assert(tier(p, h[v]) <= tier(p, h[i]));
            }
        }
        assert forall|i: int| 0 <= i < victim(s, p) implies tier(p, s[victim(s, p)]) < tier(
            p,
            #[trigger] s[i],
        ) by {
            assert(tier(p, h[v]) <= tier(p, h[i]));
        }
    }
}

/// What remains after eviction fits the budget, and repeats nothing.
pub proof fn law_kept_fits(s: Seq<MetaView>, p: Policies, budget: u64)
    ensures
        total(kept(s, p, budget)) <= budget,
        distinct(s) ==> distinct(kept(s, p, budget)),
        kept(s, p, budget).len() + evicted_names(s, p, budget).len() == s.len(),
    decreases s.len(),
{
    if s.len() > 0 && total(s) > budget {
        lemma_victim(s, p);
        let v = victim(s, p);
        law_kept_fits(s.remove(v), p, budget);
        if distinct(s) {
            lemma_distinct_remove(s, v);
        }
    }
}

/// Nothing is evicted from a store that fits its budget.
pub proof fn law_no_needless_eviction(s: Seq<MetaView>, p: Policies, budget: u64)
    requires
        total(s) <= budget,
    ensures
        kept(s, p, budget) == s,
        evicted_names(s, p, budget) == Seq::<Seq<char>>::empty(),
{
}

/// An object that remains is one of those that were there.
pub proof fn lemma_kept_from(s: Seq<MetaView>, p: Policies, budget: u64, m: MetaView)
    requires
        kept(s, p, budget).contains(m),
    ensures
        s.contains(m),
    decreases s.len(),
{
    if s.len() > 0 && total(s) > budget {
        lemma_victim(s, p);
        let v = victim(s, p);
        let r = s.remove(v);
        lemma_kept_from(r, p, budget, m);
        let k = choose|k: int| 0 <= k < r.len() && r[k] == m;
        assert(s[if k < v { k } else { k + 1 }] == m);
    }
}

/// A lower tier goes before a higher one: while an object of a higher tier is dropped, none of a
/// lower tier remains, and among those of one tier the least recently used goes first.
pub proof fn law_lower_tier_goes_first(s: Seq<MetaView>, p: Policies, budget: u64, a: int, b: int)
    requires
        distinct(s),
        0 <= a < s.len(),
        0 <= b < s.len(),
        tier(p, s[a]) < tier(p, s[b]) || (tier(p, s[a]) == tier(p, s[b]) && a < b),
        kept(s, p, budget).contains(s[a]),
    ensures
        kept(s, p, budget).contains(s[b]),
    decreases s.len(),
{
    if total(s) > budget {
        lemma_victim(s, p);
        let v = victim(s, p);
        let r = s.remove(v);
        lemma_distinct_remove(s, v);
        if v == a {
            lemma_kept_from(r, p, budget, s[a]);
            let k = choose|k: int| 0 <= k < r.len() && r[k] == s[a];
            assert(!is_at(r[k], s[v].key, s[v].kind));
        } else {
            assert(v != b) by {
                if v == b {
                    assert(tier(p, s[v]) <= tier(p, s[a]));
                }
            }
            let a2 = if a < v { a } else { a - 1 };
            let b2 = if b < v { b } else { b - 1 };
            assert(r[a2] == s[a] && r[b2] == s[b]);
            law_lower_tier_goes_first(r, p, budget, a2, b2);
        }
    }
}

/// Eviction stops as soon as the store fits: the last object dropped, put back, would exceed
/// the budget.
pub proof fn law_eviction_is_minimal(s: Seq<MetaView>, p: Policies, budget: u64)
    requires
        total(s) > budget,
    ensures
        exists|m: MetaView|
            s.contains(m) && evicted_names(s, p, budget).len() > 0 && evicted_names(
                s,
                p,
                budget,
            ).last() == #[trigger] m.name() && total(kept(s, p, budget)) + m.footprint() > budget,
    decreases s.len(),
{
    lemma_victim(s, p);
    let v = victim(s, p);
    let r = s.remove(v);
    lemma_total_remove(s, v);
    let names = evicted_names(s, p, budget);
    if total(r) <= budget {
        assert(s.contains(s[v]));
        assert(names =~= seq![s[v].name()]);
        assert(s[v].name() == names.last());
    } else {
        law_eviction_is_minimal(r, p, budget);
        let m = choose|m: MetaView|
            r.contains(m) && evicted_names(r, p, budget).len() > 0 && evicted_names(
                r,
                p,
                budget,
            ).last() == #[trigger] m.name() && total(kept(r, p, budget)) + m.footprint() > budget;
        let k = choose|k: int| 0 <= k < r.len() && r[k] == m;
        assert(s[if k < v { k } else { k + 1 }] == m);
        assert(names.last() == m.name());
    }
}

/// An object that remains is not among those dropped.
pub proof fn lemma_kept_not_named(s: Seq<MetaView>, p: Policies, budget: u64, m: MetaView)
    requires
        distinct(s),
        sized(s),
        kept(s, p, budget).contains(m),
    ensures
        !evicted_names(s, p, budget).contains(m.name()),
    decreases s.len(),
{
    if s.len() > 0 && total(s) > budget {
        lemma_victim(s, p);
        let v = victim(s, p);
        let r = s.remove(v);
        lemma_distinct_remove(s, v);
        assert(sized(r)) by {
            assert forall|i: int| 0 <= i < r.len() implies (#[trigger] r[i]).key.len() == 16 by {
                assert(r[i] == s[if i < v { i } else { i + 1 }]);
            }
        }
        lemma_kept_not_named(r, p, budget, m);
        lemma_kept_from(r, p, budget, m);
        let k = choose|k: int| 0 <= k < r.len() && r[k] == m;
        assert(!is_at(r[k], s[v].key, s[v].kind));
        if m.name() == s[v].name() {
            law_names_distinct(m.key, m.kind, s[v].key, s[v].kind);
        }
        let names = evicted_names(s, p, budget);
        let rest = evicted_names(r, p, budget);
        assert forall|i: int| 0 <= i < names.len() implies names[i] != m.name() by {
            if i > 0 {
                assert(names[i] == rest[i - 1]);
                if names[i] == m.name() {
                    assert(rest.contains(m.name()));
                }
            }
        }
    }
}

/// An object that has not idled out is not among those that have.
pub proof fn lemma_alive_not_named(s: Seq<MetaView>, p: Policies, now: u64, m: MetaView)
    requires
        distinct(s),
        sized(s),
        s.contains(m),
        !idle_out(p, m, now),
    ensures
        !idle_names(s, p, now).contains(m.name()),
    decreases s.len(),
{
    let k = choose|k: int| 0 <= k < s.len() && s[k] == m;
    lemma_idle_names_from(s, p, now);
    let names = idle_names(s, p, now);
    if names.contains(m.name()) {
        let j = choose|j: int| 0 <= j < names.len() && names[j] == m.name();
        assert(comes_from_idle(s, p, now, names[j]));
        let q = choose|q: int|
            0 <= q < s.len() && idle_out(p, #[trigger] s[q], now) && s[q].name() == names[j];
        law_names_distinct(s[q].key, s[q].kind, m.key, m.kind);
        if q < k {
            assert(!(s[q].key == s[k].key && s[q].kind == s[k].kind));
        } else if k < q {
            assert(!(s[k].key == s[q].key && s[k].kind == s[q].kind));
        }
    }
}

spec fn comes_from_idle(s: Seq<MetaView>, p: Policies, now: u64, name: Seq<char>) -> bool {
    exists|q: int| 0 <= q < s.len() && idle_out(p, #[trigger] s[q], now) && s[q].name() == name
}

proof fn lemma_idle_names_from(s: Seq<MetaView>, p: Policies, now: u64)
    ensures
        forall|j: int|
            0 <= j < idle_names(s, p, now).len() ==> comes_from_idle(
                s,
                p,
                now,
                #[trigger] idle_names(s, p, now)[j],
            ),
    decreases s.len(),
{
    if s.len() > 0 {
        let h = s.drop_last();
        lemma_idle_names_from(h, p, now);
        let a = idle_names(h, p, now);
        let r = idle_names(s, p, now);
        assert forall|j: int| 0 <= j < r.len() implies comes_from_idle(s, p, now, #[trigger] r[j]) by {
            if j < a.len() {
                assert(r[j] == a[j]);
                let q = choose|q: int|
                    0 <= q < h.len() && idle_out(p, #[trigger] h[q], now) && h[q].name() == a[j];
                assert(s[q] == h[q]);
            } else {
                assert(s[s.len() - 1] == s.last());
            }
        }
    }
}

/// What is left after an expiry are the objects that have not idled out, all of them and no other.
pub proof fn law_only_the_idle_expire(s: Seq<MetaView>, p: Policies, now: u64)
    ensures
        forall|i: int|
            0 <= i < alive(s, p, now).len() ==> !idle_out(p, #[trigger] alive(s, p, now)[i], now)
                && s.contains(alive(s, p, now)[i]),
        forall|i: int|
            0 <= i < s.len() && !idle_out(p, #[trigger] s[i], now) ==> alive(s, p, now).contains(s[i]),
        alive(s, p, now).len() + idle_names(s, p, now).len() == s.len(),
    decreases s.len(),
{
    if s.len() > 0 {
        let t = s.drop_last();
        law_only_the_idle_expire(t, p, now);
        let a = alive(t, p, now);
        let b = alive(s, p, now);
        assert forall|i: int| 0 <= i < b.len() implies !idle_out(p, #[trigger] b[i], now) && s.contains(b[i]) by {
            if i < a.len() {
                assert(b[i] == a[i]);
                let k = choose|k: int| 0 <= k < t.len() && t[k] == a[i];
                assert(s[k] == b[i]);
            } else {
                assert(s[s.len() - 1] == b[i]);
            }
        }
        assert forall|i: int| 0 <= i < s.len() && !idle_out(p, #[trigger] s[i], now) implies b.contains(s[i]) by {
            if i < t.len() {
                assert(t[i] == s[i]);
                let k = choose|k: int| 0 <= k < a.len() && a[k] == t[i];
                assert(b[k] == s[i]);
            } else {
                assert(b[b.len() - 1] == s[i]);
            }
        }
    }
}

pub proof fn lemma_alive_seqs(s: Seq<MetaView>, q: Seq<u64>, p: Policies, now: u64, last: u64)
    requires
        q.len() == s.len(),
    ensures
        alive_seqs(s, q, p, now).len() == alive(s, p, now).len(),
        growing(q, last) ==> growing(alive_seqs(s, q, p, now), last),
    decreases s.len(),
{
    if s.len() > 0 {
        let r = q.drop_last();
        lemma_alive_seqs(s.drop_last(), r, p, now, q.last());
        lemma_alive_seqs(s.drop_last(), r, p, now, last);
        if growing(q, last) {
            assert(growing(r, last));
            let a = alive_seqs(s.drop_last(), r, p, now);
            if r.len() > 0 {
                lemma_below_last(s.drop_last(), r, p, now, q.last());
            }
            let b = alive_seqs(s, q, p, now);
            assert forall|i: int, j: int| 0 <= i < j < b.len() implies #[trigger] b[i] < #[trigger] b[j] by {
                if j < a.len() {
                    assert(a[i] < a[j]);
                } else {
                    assert(b[i] == a[i]);
                }
            }
        }
    }
}

/// The numbers of what is alive are among the numbers.
proof fn lemma_below_last(s: Seq<MetaView>, q: Seq<u64>, p: Policies, now: u64, bound: u64)
    requires
        q.len() == s.len(),
        forall|i: int| 0 <= i < q.len() ==> #[trigger] q[i] < bound,
    ensures
        forall|i: int|
            0 <= i < alive_seqs(s, q, p, now).len() ==> #[trigger] alive_seqs(s, q, p, now)[i] < bound,
    decreases s.len(),
{
    if s.len() > 0 {
        let r = q.drop_last();
        assert forall|i: int| 0 <= i < r.len() implies #[trigger] r[i] < bound by {
            assert(r[i] == q[i]);
        }
        lemma_below_last(s.drop_last(), r, p, now, bound);
        let a = alive_seqs(s.drop_last(), r, p, now);
        assert(q.last() == q[q.len() - 1]);
        assert forall|i: int| 0 <= i < alive_seqs(s, q, p, now).len() implies #[trigger] alive_seqs(
            s,
            q,
            p,
            now,
        )[i] < bound by {
            if i < a.len() {
                assert(alive_seqs(s, q, p, now)[i] == a[i]);
            }
        }
    }
}

pub proof fn lemma_kept_seqs(s: Seq<MetaView>, q: Seq<u64>, p: Policies, budget: u64, last: u64)
    requires
        q.len() == s.len(),
    ensures
        kept_seqs(s, q, p, budget).len() == kept(s, p, budget).len(),
        growing(q, last) ==> growing(kept_seqs(s, q, p, budget), last),
    decreases s.len(),
{
    if s.len() > 0 && total(s) > budget {
        let v = victim(s, p);
        if 0 <= v < s.len() {
            lemma_kept_seqs(s.remove(v), q.remove(v), p, budget, last);
        }
    }
}

/// An object is found by its key and kind, and only where it is there.
pub proof fn law_lookup_finds_what_is_there(s: Seq<MetaView>, key: Seq<u8>, kind: Kind, i: int)
    requires
        distinct(s),
        0 <= i < s.len(),
    ensures
        s[i].key == key && s[i].kind == kind ==> position(s, key, kind) == Some(i) && lookup(s, key, kind)
            == Some(s[i]),
        (forall|j: int| 0 <= j < s.len() ==> !((#[trigger] s[j]).key == key && s[j].kind == kind)) ==> lookup(
            s,
            key,
            kind,
        ) is None,
    decreases s.len(),
{
    let front = s.drop_last();
    assert forall|a: int, b: int| 0 <= a < b < front.len() implies !((#[trigger] front[a]).key == (
    #[trigger] front[b]).key && front[a].kind == front[b].kind) by {
        assert(front[a] == s[a] && front[b] == s[b]);
    }
    assert(s[s.len() - 1] == s.last());
    if i < s.len() - 1 {
        law_lookup_finds_what_is_there(front, key, kind, i);
        assert(front[i] == s[i]);
    }
    if forall|j: int| 0 <= j < s.len() ==> !((#[trigger] s[j]).key == key && s[j].kind == kind) {
        lemma_absent(s, key, kind);
    }
}

proof fn lemma_absent(s: Seq<MetaView>, key: Seq<u8>, kind: Kind)
    requires
        forall|j: int| 0 <= j < s.len() ==> !((#[trigger] s[j]).key == key && s[j].kind == kind),
    ensures
        position(s, key, kind) is None,
    decreases s.len(),
{
    if s.len() > 0 {
        assert(!(s[s.len() - 1].key == key && s[s.len() - 1].kind == kind));
        let front = s.drop_last();
        assert forall|j: int| 0 <= j < front.len() implies !((#[trigger] front[j]).key == key && front[j].kind
            == kind) by {
            assert(front[j] == s[j]);
        }
        lemma_absent(front, key, kind);
    }
}

/// The size of a store is that of all its objects.
pub proof fn law_total_is_of_all_objects(s: Seq<MetaView>, m: MetaView)
    ensures
        total(s.push(m)) == total(s) + m.footprint(),
        total(Seq::empty()) == 0,
{
    assert(s.push(m).drop_last() =~= s);
}

/// A use moves an object behind all others and notes the time; nothing else changes.
pub proof fn law_use_moves_to_the_end(s: Seq<MetaView>, key: Seq<u8>, kind: Kind, now: u64, i: int)
    requires
        position(s, key, kind) == Some(i),
        0 <= i < s.len(),
    ensures
        ({
            let t = touched(s, key, kind, now);
            &&& t.len() == s.len()
            &&& t.last() == (MetaView { last_used: now, ..s[i] })
            &&& forall|j: int| 0 <= j < i ==> #[trigger] t[j] == s[j]
            &&& forall|j: int| i <= j < s.len() - 1 ==> #[trigger] t[j] == s[j + 1]
        }),
        without(s, key, kind) == s.remove(i),
{
}

/// What is not there is neither used nor taken out.
pub proof fn law_use_of_nothing_changes_nothing(s: Seq<MetaView>, key: Seq<u8>, kind: Kind, now: u64, m: MetaView)
    requires
        position(s, key, kind) is None,
    ensures
        touched(s, key, kind, now) == s,
        without(s, key, kind) == s,
        m.key == key && m.kind == kind ==> added(s, m) == s.push(m),
{
}

/// The tier of an object is the priority of its role, nine at most; and it idles out once it has not
/// been used for longer than its role's time to live, never without one.
pub proof fn law_tier_and_life_of_an_object(p: Policies, m: MetaView, now: u64)
    ensures
        p.applied(m.role).priority <= 9 ==> tier(p, m) == p.applied(m.role).priority,
        tier(p, m) <= 9,
        p.applied(m.role).priority > 9 ==> tier(p, m) == 9,
        p.applied(m.role).ttl is None ==> !idle_out(p, m, now),
        p.applied(m.role).ttl matches Some(t) ==> (idle_out(p, m, now) <==> now > m.last_used + t),
{
}

/// What is taken out for good is told by the names of exactly those objects that are gone.
pub proof fn law_idle_objects_are_named(s: Seq<MetaView>, p: Policies, now: u64, m: MetaView)
    ensures
        idle_out(p, m, now) ==> alive(s.push(m), p, now) == alive(s, p, now) && idle_names(s.push(m), p, now)
            == idle_names(s, p, now).push(m.name()),
        !idle_out(p, m, now) ==> alive(s.push(m), p, now) == alive(s, p, now).push(m) && idle_names(
            s.push(m),
            p,
            now,
        ) == idle_names(s, p, now),
{
    assert(s.push(m).drop_last() =~= s);
}

} // verus!
