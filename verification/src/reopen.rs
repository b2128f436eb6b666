//! A store that is closed and opened again is the store that it was.
use crate::backend::{index_withheld, lists, Backend, Blob};
use crate::cache::{backed, lemma_own, opened_as, own, Cache, CacheView, Opening};
use crate::index::{index_bytes, law_index_restores_order, records_of, taken_up};
use crate::object::{law_names_distinct, Kind, MetaView};
use crate::policy::Policies;
use crate::shelf::{alive, growing, kept, lemma_alive_seqs, lemma_kept_seqs, lemma_position, position};
use vstd::prelude::*;

verus! {

/// Whether the index of a cache lists every object of its root that the backend holds.
pub open spec fn lists_all(v: CacheView, objects: Map<Seq<char>, Blob>) -> bool {
    &&& forall|i: int| 0 <= i < v.entries.len() ==> (#[trigger] v.entries[i]).root == v.root
    &&& forall|n: Seq<char>| #[trigger]
        objects.dom().contains(n) && objects[n].meta.root == v.root ==> exists|i: int|
            0 <= i < v.entries.len() && (#[trigger] v.entries[i]).name() == n
}

/// An object of that root is among the objects of that root.
proof fn lemma_owned(s: Seq<MetaView>, root: Seq<u8>, i: int)
    requires
        0 <= i < s.len(),
        s[i].root == root,
    ensures
        own(s, root).contains(s[i]),
    decreases s.len(),
{
    let h = own(s.drop_last(), root);
    if i == s.len() - 1 {
        assert(own(s, root)[h.len() as int] == s[i]);
    } else {
        lemma_owned(s.drop_last(), root, i);
        let j = choose|j: int| 0 <= j < h.len() && h[j] == s[i];
        assert(own(s, root)[j] == s[i]);
    }
}

/// The names of some objects.
pub open spec fn names_of(s: Seq<MetaView>) -> Seq<Seq<char>> {
    Seq::new(s.len(), |i: int| s[i].name())
}

/// Names that differ repeat nothing.
proof fn lemma_names_differ(s: Seq<MetaView>)
    requires
        forall|i: int, j: int| 0 <= i < j < s.len() ==> (#[trigger] s[i]).name() != (#[trigger] s[j]).name(),
    ensures
        names_of(s).no_duplicates(),
{
    let x = names_of(s);
    assert forall|i: int, j: int| 0 <= i < x.len() && 0 <= j < x.len() && i != j implies x[i] != x[j] by {
        if i < j {
            assert(s[i].name() != s[j].name());
        } else {
            assert(s[j].name() != s[i].name());
        }
    }
}

/// An object that a store lists is in the index, but for its time of last use.
proof fn lemma_listed_is_indexed(
    v: CacheView,
    objects: Map<Seq<char>, Blob>,
    listed: Seq<MetaView>,
    at: int,
) -> (x: int)
    requires
        v.agrees(objects),
        lists_all(v, objects),
        lists(listed, objects),
        0 <= at < listed.len(),
        listed[at].root == v.root,
    ensures
        0 <= x < v.entries.len(),
        listed[at].used_at(v.entries[x].last_used) == v.entries[x],
        listed[at].name() == v.entries[x].name(),
{
    let n = listed[at].name();
    assert(objects.dom().contains(n) && objects[n].meta == listed[at]);
    let x = choose|x: int| 0 <= x < v.entries.len() && (#[trigger] v.entries[x]).name() == n;
    assert(backed(v.entries[x], objects));
    x
}

/// An object of the index is listed.
proof fn lemma_indexed_is_listed(
    v: CacheView,
    objects: Map<Seq<char>, Blob>,
    listed: Seq<MetaView>,
    x: int,
) -> (at: int)
    requires
        v.agrees(objects),
        lists_all(v, objects),
        lists(listed, objects),
        0 <= x < v.entries.len(),
    ensures
        0 <= at < listed.len(),
        listed[at].name() == v.entries[x].name(),
        listed[at].root == v.root,
{
    assert(backed(v.entries[x], objects));
    let n = v.entries[x].name();
    assert(objects.dom().contains(n));
    let at = choose|at: int| 0 <= at < listed.len() && (#[trigger] listed[at]).name() == n;
    assert(objects[n].meta == listed[at]);
    assert(v.entries[x].root == v.root);
    at
}

/// As many objects of a root are listed as are in the index.
proof fn lemma_equally_many(v: CacheView, objects: Map<Seq<char>, Blob>, listed: Seq<MetaView>)
    requires
        v.agrees(objects),
        lists_all(v, objects),
        lists(listed, objects),
        names_of(v.entries).no_duplicates(),
        names_of(own(listed, v.root)).no_duplicates(),
    ensures
        own(listed, v.root).len() == v.entries.len(),
{
    let mine = own(listed, v.root);
    let x = names_of(mine);
    let y = names_of(v.entries);
    x.unique_seq_to_set();
    y.unique_seq_to_set();
    assert forall|n: Seq<char>| x.to_set().contains(n) == y.to_set().contains(n) by {
        if x.contains(n) {
            let i = choose|i: int| 0 <= i < x.len() && x[i] == n;
            let at = lemma_own_at(listed, v.root, i);
            let j = lemma_listed_is_indexed(v, objects, listed, at);
            assert(y[j] == n);
        }
        if y.contains(n) {
            let j = choose|j: int| 0 <= j < y.len() && y[j] == n;
            let at = lemma_indexed_is_listed(v, objects, listed, j);
            lemma_owned(listed, v.root, at);
            let i = choose|i: int| 0 <= i < mine.len() && mine[i] == listed[at];
            assert(x[i] == n);
        }
    }
    assert(x.to_set() =~= y.to_set());
}

/// Where an object of that root is listed.
proof fn lemma_own_at(s: Seq<MetaView>, root: Seq<u8>, i: int) -> (at: int)
    requires
        0 <= i < own(s, root).len(),
    ensures
        0 <= at < s.len(),
        s[at] == own(s, root)[i],
        s[at].root == root,
    decreases s.len(),
{
    let h = own(s.drop_last(), root);
    if i < h.len() {
        lemma_own_at(s.drop_last(), root, i)
    } else {
        s.len() - 1
    }
}

/// What a store lists of a root is what its index lists, but for the times of last use.
proof fn lemma_listed(v: CacheView, objects: Map<Seq<char>, Blob>, listed: Seq<MetaView>)
    requires
        v.sound(),
        v.agrees(objects),
        lists_all(v, objects),
        lists(listed, objects),
    ensures
        ({
            let s = v.entries;
            let mine = own(listed, v.root);
            &&& mine.len() == s.len()
            &&& forall|a: int, b: int|
                0 <= a < b < s.len() ==> (#[trigger] s[a]).name() != (#[trigger] s[b]).name()
            &&& forall|a: int, b: int|
                0 <= a < b < mine.len() ==> (#[trigger] mine[a]).name() != (#[trigger] mine[b]).name()
            &&& forall|k: int|
                0 <= k < mine.len() ==> exists|x: int|
                    0 <= x < s.len() && (#[trigger] mine[k]).used_at((#[trigger] s[x]).last_used) == s[x]
        }),
{
    let s = v.entries;
    let mine = own(listed, v.root);
    assert forall|a: int, b: int| 0 <= a < b < s.len() implies (#[trigger] s[a]).name() != (
    #[trigger] s[b]).name() by {
        if s[a].name() == s[b].name() {
            law_names_distinct(s[a].key, s[a].kind, s[b].key, s[b].kind);
        }
    }
    lemma_names_differ(s);
    assert(forall|a: int, b: int|
        0 <= a < b < mine.len() ==> (#[trigger] mine[a]).name() != (#[trigger] mine[b]).name()) by {
        lemma_own(listed, v.root);
    }
    lemma_names_differ(mine);
    lemma_equally_many(v, objects, listed);
    assert forall|k: int| 0 <= k < mine.len() implies exists|x: int|
        0 <= x < s.len() && (#[trigger] mine[k]).used_at((#[trigger] s[x]).last_used) == s[x] by {
        let at = lemma_own_at(listed, v.root, k);
        let x = lemma_listed_is_indexed(v, objects, listed, at);
        assert(mine[k].used_at(s[x].last_used) == s[x]);
    }
}

/// A store whose index was written out is, when it is opened again and the index is given out, the
/// store that it was: the same objects, with the same times of last use, in the same order. The
/// index has to list what the backend holds of its root, with numbers of use that grow; objects of
/// other roots do not matter.
pub proof fn law_reopened_store_is_the_same(
    v: CacheView,
    objects: Map<Seq<char>, Blob>,
    o: Opening,
    policies: Policies,
    budget: u64,
)
    requires
        v.sound(),
        v.agrees(objects),
        lists_all(v, objects),
        growing(v.seqs, v.seq),
        o.fits(objects, Some(index_bytes(v.root, records_of(v.entries, v.seqs))), v.root),
    ensures
        o.start(v.root, policies, budget).entries == v.entries,
{
    lemma_listed(v, objects, o.listed);
    let lines = records_of(v.entries, v.seqs);
    assert(o.lines == Some(lines));
    law_index_restores_order(v.entries, v.seqs, own(o.listed, v.root), o.sorted);
    assert(taken_up(o.sorted, lines) == v.entries);
}

/// The order of use survives a restart: a store whose index was written out is opened, where the
/// backend does not refuse to give the index out, with the objects in the order and with the times
/// that they had, less what idled out meanwhile or does not fit the budget.
pub proof fn law_order_survives_a_restart<B: Backend>(
    v: CacheView,
    backend: B,
    c: Cache<B>,
    o: Opening,
    index: Option<Seq<u8>>,
    policies: Policies,
    budget: u64,
    now: u64,
)
    requires
        v.sound(),
        v.agrees(backend.objects()),
        lists_all(v, backend.objects()),
        growing(v.seqs, v.seq),
        backend.stored_index() == Some(index_bytes(v.root, records_of(v.entries, v.seqs))),
        forall|e: String| !#[trigger] index_withheld(backend, e),
        opened_as(backend, c, o, index, v.root, policies, budget, now),
    ensures
        c.opened().index_loaded,
        c.view().entries == kept(alive(v.entries, policies, now), policies, budget),
{
    assert(index == backend.stored_index());
    law_reopened_store_is_the_same(v, backend.objects(), o, policies, budget);
}

/// Whether every object has a number of use, and the numbers grow from the least recently used
/// object to the most recently used one.
pub open spec fn numbered(v: CacheView) -> bool {
    v.seqs.len() == v.entries.len() && growing(v.seqs, v.seq)
}

proof fn lemma_growing_remove(q: Seq<u64>, i: int, last: u64)
    requires
        0 <= i < q.len(),
        growing(q, last),
    ensures
        growing(q.remove(i), last),
{
    let r = q.remove(i);
    assert forall|a: int, b: int| 0 <= a < b < r.len() implies #[trigger] r[a] < #[trigger] r[b] by {
        assert(r[a] == q[if a < i { a } else { a + 1 }]);
        assert(r[b] == q[if b < i { b } else { b + 1 }]);
    }
    assert forall|a: int| 0 <= a < r.len() implies #[trigger] r[a] <= last by {
        assert(r[a] == q[if a < i { a } else { a + 1 }]);
    }
}

/// The numbers follow the order of use: whatever is used or comes in gets a number above all
/// others, and what is dropped leaves the rest as it is; until the counter wraps.
pub proof fn law_numbers_follow_use(v: CacheView, key: Seq<u8>, kind: Kind, m: MetaView, now: u64)
    requires
        numbered(v),
        v.seq < u64::MAX,
    ensures
        numbered(v.touch(key, kind, now)),
        numbered(v.with(m)),
        numbered(v.remove(key, kind)),
        numbered(v.expire(now)),
        numbered(v.evict()),
{
    lemma_position(v.entries, key, kind);
    lemma_position(v.entries, m.key, m.kind);
    if let Some(i) = position(v.entries, key, kind) {
        lemma_growing_remove(v.seqs, i, v.seq);
    }
    if let Some(i) = position(v.entries, m.key, m.kind) {
        lemma_growing_remove(v.seqs, i, v.seq);
    }
    lemma_alive_seqs(v.entries, v.seqs, v.policies, now, v.seq);
    lemma_kept_seqs(v.entries, v.seqs, v.policies, v.budget, v.seq);
}

/// A store that is opened is numbered in the order in which its objects are taken up.
pub proof fn law_opened_store_is_numbered(o: Opening, root: Seq<u8>, policies: Policies, budget: u64)
    requires
        o.sorted.len() <= u64::MAX,
    ensures
        numbered(o.start(root, policies, budget)),
{
}

} // verus!
