//! Names that wait to be deleted: none of them is the name of an object of the index.
use crate::cache::CacheView;
use crate::object::{Kind, MetaView};
use crate::policy::Policies;
use crate::restore::{chain, snapshot_at};
use crate::shelf::{
    alive, distinct, evicted_names, idle_names, idle_out, kept, lemma_added, lemma_alive,
    lemma_alive_not_named, lemma_kept_from, lemma_kept_not_named, lemma_position, position, sized,
    touched, without,
};
use crate::text::{owned, str_eq, texts};
use vstd::prelude::*;

verus! {

/// Whether no object of a list has one of those names.
pub open spec fn apart(s: Seq<MetaView>, names: Seq<Seq<char>>) -> bool {
    forall|i: int| 0 <= i < s.len() ==> !names.contains((#[trigger] s[i]).name())
}

/// Whether objects stand rightly in the index of a store with that root: each is of that root, and
/// none waits to be deleted.
pub open spec fn in_place(s: Seq<MetaView>, names: Seq<Seq<char>>, root: Seq<u8>) -> bool {
    apart(s, names) && forall|i: int| 0 <= i < s.len() ==> (#[trigger] s[i]).root == root
}

/// The names of a list but for one.
pub open spec fn but_for(names: Seq<Seq<char>>, n: Seq<char>) -> Seq<Seq<char>>
    decreases names.len(),
{
    if names.len() == 0 {
        names
    } else if names.last() == n {
        but_for(names.drop_last(), n)
    } else {
        but_for(names.drop_last(), n).push(names.last())
    }
}

/// A name of a list is among those that are left, unless it is the one left out.
pub proof fn law_but_for(names: Seq<Seq<char>>, n: Seq<char>, x: Seq<char>)
    ensures
        but_for(names, n).contains(x) <==> names.contains(x) && x != n,
    decreases names.len(),
{
    if names.len() > 0 {
        let h = names.drop_last();
        let b = but_for(h, n);
        law_but_for(h, n, x);
        if names.contains(x) && x != n {
            let i = choose|i: int| 0 <= i < names.len() && names[i] == x;
            if i < h.len() {
                assert(h[i] == x);
                let j = choose|j: int| 0 <= j < b.len() && b[j] == x;
                assert(but_for(names, n)[j] == x);
            } else {
                assert(but_for(names, n)[b.len() as int] == x);
            }
        }
        if but_for(names, n).contains(x) {
            let j = choose|j: int| 0 <= j < but_for(names, n).len() && but_for(names, n)[j] == x;
            if j < b.len() {
                assert(b[j] == x);
                let i = choose|i: int| 0 <= i < h.len() && h[i] == x;
                assert(names[i] == x);
            } else {
                assert(names[names.len() - 1] == x);
            }
        }
    }
}

/// The names of a list but for one.
pub fn without_name(names: Vec<String>, n: &str) -> (r: Vec<String>)
    ensures
        texts(r@) == but_for(texts(names@), n@),
{
    let ghost all = texts(names@);
    let mut back: Vec<String> = Vec::new();
    let mut i: usize = 0;
    let len: usize = names.len();
    assert(texts(back@) =~= but_for(all.subrange(0, 0), n@));
    while i < len
        invariant
            i <= len,
            len == names@.len(),
            all == texts(names@),
            texts(back@) == but_for(all.subrange(0, i as int), n@),
        decreases len - i,
    {
        assert(all.subrange(0, i + 1).drop_last() =~= all.subrange(0, i as int));
        assert(all.subrange(0, i + 1).last() == names@[i as int]@);
        if !str_eq(names[i].as_str(), n) {
            let ghost before = texts(back@);
            let s: String = owned(names[i].as_str());
            back.push(s);
            assert(texts(back@) =~= before.push(names@[i as int]@));
        }
        i = i + 1;
    }
    assert(all.subrange(0, len as int) =~= all);
    back
}

pub(crate) proof fn lemma_in_place_touched(
    s: Seq<MetaView>,
    key: Seq<u8>,
    kind: Kind,
    now: u64,
    names: Seq<Seq<char>>,
    root: Seq<u8>,
)
    requires
        in_place(s, names, root),
    ensures
        in_place(touched(s, key, kind, now), names, root),
{
    let t = touched(s, key, kind, now);
    lemma_position(s, key, kind);
    if let Some(i) = position(s, key, kind) {
        assert forall|k: int| 0 <= k < t.len() implies !names.contains((#[trigger] t[k]).name())
            && t[k].root == root by {
            let q = if k == t.len() - 1 { i } else if k < i { k } else { k + 1 };
            assert(t[k].name() == s[q].name());
            assert(s[q].root == root);
        }
    }
}

pub(crate) proof fn lemma_in_place_without(
    s: Seq<MetaView>,
    key: Seq<u8>,
    kind: Kind,
    names: Seq<Seq<char>>,
    root: Seq<u8>,
)
    requires
        in_place(s, names, root),
    ensures
        in_place(without(s, key, kind), names, root),
{
    let t = without(s, key, kind);
    lemma_position(s, key, kind);
    if let Some(i) = position(s, key, kind) {
        assert forall|k: int| 0 <= k < t.len() implies !names.contains((#[trigger] t[k]).name())
            && t[k].root == root by {
            assert(t[k] == s[if k < i { k } else { k + 1 }]);
        }
    }
}

pub(crate) proof fn lemma_in_place_kept(
    s: Seq<MetaView>,
    p: Policies,
    budget: u64,
    names: Seq<Seq<char>>,
    root: Seq<u8>,
)
    requires
        in_place(s, names, root),
    ensures
        in_place(kept(s, p, budget), names, root),
{
    let t = kept(s, p, budget);
    assert forall|k: int| 0 <= k < t.len() implies !names.contains((#[trigger] t[k]).name())
        && t[k].root == root by {
        assert(t.contains(t[k]));
        lemma_kept_from(s, p, budget, t[k]);
        let i = choose|i: int| 0 <= i < s.len() && s[i] == t[k];
        assert(!names.contains(s[i].name()));
    }
}

/// What idles out may join the names that wait.
pub(crate) proof fn lemma_in_place_alive(
    s: Seq<MetaView>,
    p: Policies,
    now: u64,
    names: Seq<Seq<char>>,
    root: Seq<u8>,
)
    requires
        in_place(s, names, root),
        distinct(s),
        sized(s),
    ensures
        in_place(alive(s, p, now), names, root),
        in_place(alive(s, p, now), names + idle_names(s, p, now), root),
{
    let t = alive(s, p, now);
    let idle = idle_names(s, p, now);
    lemma_alive(s, p, now);
    assert forall|k: int| 0 <= k < t.len() implies !names.contains((#[trigger] t[k]).name())
        && !(names + idle).contains(t[k].name()) && t[k].root == root by {
        assert(s.contains(t[k]) && !idle_out(p, t[k], now));
        let i = choose|i: int| 0 <= i < s.len() && s[i] == t[k];
        assert(!names.contains(s[i].name()));
        lemma_alive_not_named(s, p, now, t[k]);
        if (names + idle).contains(t[k].name()) {
            let z = choose|z: int| 0 <= z < (names + idle).len() && (names + idle)[z] == t[k].name();
            if z < names.len() {
                assert(names[z] == t[k].name());
            } else {
                assert(idle[z - names.len()] == t[k].name());
            }
        }
    }
}

proof fn lemma_in_place_rows(v: CacheView, rows: Seq<MetaView>, n: int, now: u64)
    requires
        in_place(v.entries, v.pending, v.root),
    ensures
        in_place(v.rows_used(rows, n, now).entries, v.pending, v.root),
        v.rows_used(rows, n, now).pending == v.pending,
        v.rows_used(rows, n, now).root == v.root,
    decreases n,
{
    if n > 0 {
        lemma_in_place_rows(v, rows, n - 1, now);
        lemma_in_place_touched(
            v.rows_used(rows, n - 1, now).entries,
            rows[n - 1].key,
            Kind::Rows,
            now,
            v.pending,
            v.root,
        );
    }
}

pub(crate) proof fn lemma_in_place_restored(v: CacheView, keys: Seq<Seq<u8>>, p: int, now: u64)
    requires
        in_place(v.entries, v.pending, v.root),
    ensures
        in_place(v.restore(keys, p, now).entries, v.pending, v.root),
        v.restore(keys, p, now).pending == v.pending,
        v.restore(keys, p, now).root == v.root,
{
    let rows = chain(v.entries, keys, p)->0;
    let snap = snapshot_at(v.entries, keys, p)->0;
    lemma_in_place_rows(v, rows, rows.len() as int, now);
    let s = v.rows_used(rows, rows.len() as int, now);
    lemma_in_place_touched(s.entries, snap.key, Kind::Snapshot, now, v.pending, v.root);
}

/// What is deleted for a new object is not in the index: no object that is indexed, the new one
/// included, loses its data.
pub proof fn law_insert_spares_the_index(v: CacheView, m: MetaView, now: u64)
    requires
        v.sound(),
        m.key.len() == 16,
        position(v.entries, m.key, m.kind) is None,
    ensures
        apart(v.insert(m, now).entries, v.insert_gone(m, now)),
{
    let gone = v.insert_gone(m, now);
    let p = v.policies;
    let s = v.with(m).entries;
    let t = alive(s, p, now);
    let u = kept(t, p, v.budget);
    lemma_added(v.entries, m);
    lemma_position(v.entries, m.key, m.kind);
    lemma_alive(s, p, now);
    assert(sized(s));
    assert(sized(t)) by {
        assert forall|i: int| 0 <= i < t.len() implies (#[trigger] t[i]).key.len() == 16 by {
            assert(s.contains(t[i]));
        }
    }
    assert forall|k: int| 0 <= k < u.len() implies !gone.contains((#[trigger] u[k]).name()) by {
        let e = u[k];
        assert(u.contains(e));
        lemma_kept_from(t, p, v.budget, e);
        lemma_kept_not_named(t, p, v.budget, e);
        let j = choose|j: int| 0 <= j < t.len() && t[j] == e;
        assert(s.contains(t[j]) && !idle_out(p, t[j], now));
        lemma_alive_not_named(s, p, now, e);
        let q = choose|q: int| 0 <= q < s.len() && s[q] == e;
        let a = but_for(v.pending, m.name());
        let b = idle_names(s, p, now);
        let c = evicted_names(t, p, v.budget);
        law_but_for(v.pending, m.name(), e.name());
        if q < s.len() - 1 {
            assert(v.entries[q] == e);
        } else {
            assert(e == m);
        }
        assert(!a.contains(e.name()));
        if gone.contains(e.name()) {
            let z = choose|z: int| 0 <= z < gone.len() && gone[z] == e.name();
            if z < a.len() {
                assert(a[z] == e.name());
            } else if z < a.len() + b.len() {
                assert(b[z - a.len()] == e.name());
            } else {
                assert(c[z - a.len() - b.len()] == e.name());
            }
        }
    }
}

} // verus!
