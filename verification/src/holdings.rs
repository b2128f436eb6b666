//! What a cache keeps, counts and reports: how uses, insertions and restores change it.
use crate::backend::Blob;
use crate::cache::{count_kind, eviction_list, foreign, newest_use, of_tier, oldest_use, own, removed};
use crate::cache::{CacheError, CacheView};
use crate::index::{line_for, older, stored_seq, taken_up, RecordView};
use crate::object::{Kind, MetaView};
use crate::policy::Policies;
use crate::restore::{chain, deepest, law_chain_is_gapless, law_deepest, restorable, snapshot_at};
use crate::shelf::{alive, distinct, evicted_names, idle_names, kept, law_lookup_finds_what_is_there};
use crate::shelf::{lemma_position, lemma_touched, lookup, position, tier, total, touched};
use crate::text::before;
use vstd::prelude::*;

verus! {

/// A use changes the time of the object that is used and nothing else that is looked up.
pub proof fn law_use_is_noted(s: Seq<MetaView>, key: Seq<u8>, kind: Kind, now: u64, k: Seq<u8>, d: Kind)
    requires
        distinct(s),
    ensures
        ({
            let t = touched(s, key, kind, now);
            &&& k == key && d == kind ==> lookup(t, k, d) == (match lookup(s, k, d) {
                Some(m) => Some(MetaView { last_used: now, ..m }),
                None => None,
            })
            &&& k != key || d != kind ==> lookup(t, k, d) == lookup(s, k, d)
        }),
{
    let t = touched(s, key, kind, now);
    lemma_touched(s, key, kind, now);
    lemma_position(s, key, kind);
    lemma_position(s, k, d);
    lemma_position(t, k, d);
    if let Some(i) = position(s, key, kind) {
        assert(t.last() == (MetaView { last_used: now, ..s[i] }));
        if k == key && d == kind {
            assert(t[t.len() - 1].key == key && t[t.len() - 1].kind == kind);
            law_lookup_finds_what_is_there(t, key, kind, t.len() - 1);
        } else {
            match position(s, k, d) {
                Some(j) => {
                    let at = if j < i { j } else { j - 1 };
                    assert(j != i);
                    assert(t[at] == s[j]);
                    law_lookup_finds_what_is_there(t, k, d, at);
                },
                None => {
                    if let Some(x) = position(t, k, d) {
                        if x == t.len() - 1 {
                            assert(t[x].key == key && t[x].kind == kind);
                        } else {
                            let from = if x < i { x } else { x + 1 };
                            assert(t[x] == s[from]);
                            law_lookup_finds_what_is_there(s, k, d, from);
                        }
                    }
                },
            }
        }
    }
}

proof fn lemma_rows_used(v: CacheView, rows: Seq<MetaView>, n: int, now: u64, k: Seq<u8>, d: Kind)
    requires
        distinct(v.entries),
        0 <= n <= rows.len(),
    ensures
        distinct(v.rows_used(rows, n, now).entries),
        ({
            let t = v.rows_used(rows, n, now).entries;
            &&& lookup(v.entries, k, d) is Some <==> lookup(t, k, d) is Some
            &&& d == Kind::Rows && (exists|i: int| 0 <= i < n && (#[trigger] rows[i]).key == k) ==> (lookup(
                t,
                k,
                d,
            ) matches Some(m) ==> m.last_used == now)
            &&& d == Kind::Snapshot ==> lookup(t, k, d) == lookup(v.entries, k, d)
        }),
        v.rows_used(rows, n, now).hits == v.hits,
        v.rows_used(rows, n, now).misses == v.misses,
    decreases n,
{
    if n > 0 {
        lemma_rows_used(v, rows, n - 1, now, k, d);
        let s = v.rows_used(rows, n - 1, now).entries;
        lemma_touched(s, rows[n - 1].key, Kind::Rows, now);
        law_use_is_noted(s, rows[n - 1].key, Kind::Rows, now, k, d);
    }
}

/// A restore uses the snapshot of its position and all the rows before it, and counts as a hit.
pub proof fn law_restore_uses_what_it_restores(v: CacheView, keys: Seq<Seq<u8>>, p: int, now: u64, i: int)
    requires
        distinct(v.entries),
        1 <= p < keys.len(),
        restorable(v.entries, keys, p),
        v.hits < u64::MAX,
    ensures
        ({
            let t = v.restore(keys, p, now);
            let rows = chain(v.entries, keys, p)->0;
            &&& t.hits == v.hits + 1
            &&& t.misses == v.misses
            &&& lookup(t.entries, keys[p], Kind::Snapshot) matches Some(m) && m.last_used == now
            &&& 0 <= i < rows.len() ==> (lookup(t.entries, rows[i].key, Kind::Rows) matches Some(m)
                && m.last_used == now)
            &&& t.dirty
        }),
{
    let rows = chain(v.entries, keys, p)->0;
    let snap = snapshot_at(v.entries, keys, p)->0;
    let n = rows.len() as int;
    let s = v.rows_used(rows, n, now).entries;
    law_chain_is_gapless(v.entries, keys, p);
    lemma_position(v.entries, keys[p], Kind::Snapshot);
    lemma_rows_used(v, rows, n, now, keys[p], Kind::Snapshot);
    law_use_is_noted(s, snap.key, Kind::Snapshot, now, keys[p], Kind::Snapshot);
    if 0 <= i < n {
        let k = rows[i].key;
        assert(v.entries.contains(rows[i]) && rows[i].kind == Kind::Rows);
        let j = choose|j: int| 0 <= j < v.entries.len() && v.entries[j] == rows[i];
        law_lookup_finds_what_is_there(v.entries, k, Kind::Rows, j);
        lemma_rows_used(v, rows, n, now, k, Kind::Rows);
        law_use_is_noted(s, snap.key, Kind::Snapshot, now, k, Kind::Rows);
    }
}

/// A restore is looked for among what has not idled out; it is a hit where some position can be
/// restored, the deepest of them, and a miss otherwise.
pub proof fn law_hits_and_misses(v: CacheView, keys: Seq<Seq<u8>>, now: u64)
    requires
        distinct(v.entries),
        distinct(alive(v.entries, v.policies, now)),
        keys.len() > 0,
        v.hits < u64::MAX,
        v.misses < u64::MAX,
    ensures
        ({
            let r = v.best_restore(keys, now);
            let s = alive(v.entries, v.policies, now);
            let some = exists|p: int| 1 <= p < keys.len() && #[trigger] restorable(s, keys, p);
            &&& some ==> r.hits == v.hits + 1 && r.misses == v.misses
            &&& !some ==> r.hits == v.hits && r.misses == v.misses + 1 && r.entries == s
        }),
{
    let s = alive(v.entries, v.policies, now);
    let t = CacheView {
        pending: v.pending + idle_names(v.entries, v.policies, now),
        ..v.expire(now)
    };
    law_deepest(s, keys, keys.len() - 1);
    if let Some(p) = deepest(s, keys, keys.len() - 1) {
        law_restore_uses_what_it_restores(t, keys, p, now, 0);
    }
}

/// A new object comes last, in the place of any other of its key and kind, and its arrival is counted.
pub proof fn law_new_object_comes_last(v: CacheView, m: MetaView)
    requires
        v.seq < u64::MAX,
        position(v.entries, m.key, m.kind) is None,
    ensures
        v.with(m).entries == v.entries.push(m),
        v.with(m).seqs == v.seqs.push((v.seq + 1) as u64),
        v.with(m).seq == v.seq + 1,
        v.with(m).dirty,
{
}

/// With a new object, those that idled out leave first, and then as many as it takes to fit; both are
/// counted.
pub proof fn law_insertion_makes_room(v: CacheView, m: MetaView, now: u64)
    ensures
        ({
            let s = v.with(m).entries;
            let t = alive(s, v.policies, now);
            let r = v.insert(m, now);
            let a = idle_names(s, v.policies, now).len();
            let b = evicted_names(t, v.policies, v.budget).len();
            &&& r.entries == kept(t, v.policies, v.budget)
            &&& v.expired + a <= u64::MAX ==> r.expired == v.expired + a
            &&& v.evicted + b <= u64::MAX ==> r.evicted == v.evicted + b
            &&& r.root == v.root && r.budget == v.budget && r.policies == v.policies
            &&& r.hits == v.hits && r.misses == v.misses
        }),
{
}

/// An object is refused exactly where it belongs to another root or is not sound.
pub proof fn law_refused_objects(v: CacheView, m: MetaView)
    ensures
        v.refusal(m) is None <==> m.root == v.root && m.flaw() is None,
        m.root != v.root ==> v.refusal(m) == Some(CacheError::WrongRoot),
        m.root == v.root ==> (m.flaw() matches Some(e) ==> v.refusal(m) == Some(CacheError::Object(e))),
{
}

/// What an object that is taken out leaves behind.
pub proof fn law_removed_object_is_gone(v: CacheView, key: Seq<u8>, kind: Kind, i: int)
    requires
        position(v.entries, key, kind) == Some(i),
        0 <= i < v.entries.len(),
    ensures
        v.remove(key, kind).entries == v.entries.remove(i),
        v.remove(key, kind).seqs == v.seqs.remove(i),
        v.remove(key, kind).dirty,
        v.emptied().entries.len() == 0 && v.emptied().seqs.len() == 0,
{
}

/// The report: all objects, of one kind or the other, what they take, and the oldest and newest of
/// their uses.
pub proof fn law_report_of_a_cache(v: CacheView, i: int)
    requires
        v.entries.len() <= usize::MAX,
        total(v.entries) <= u64::MAX,
        0 <= i < v.entries.len(),
    ensures
        ({
            let s = v.stats();
            &&& s.objects == v.entries.len()
            &&& s.rows + s.snapshots == s.objects
            &&& s.bytes == total(v.entries)
            &&& s.budget == v.budget
            &&& s.oldest matches Some(t) && t <= v.entries[i].last_used && (exists|j: int|
                0 <= j < v.entries.len() && (#[trigger] v.entries[j]).last_used == t)
            &&& s.newest matches Some(t) && t >= v.entries[i].last_used && (exists|j: int|
                0 <= j < v.entries.len() && (#[trigger] v.entries[j]).last_used == t)
            &&& s.hits == v.hits && s.misses == v.misses && s.evicted == v.evicted && s.expired == v.expired
        }),
{
    lemma_kinds(v.entries);
    lemma_uses(v.entries, i);
}

proof fn lemma_kinds(s: Seq<MetaView>)
    ensures
        count_kind(s, Kind::Rows) + count_kind(s, Kind::Snapshot) == s.len(),
    decreases s.len(),
{
    if s.len() > 0 {
        lemma_kinds(s.drop_last());
    }
}

proof fn lemma_uses(s: Seq<MetaView>, i: int)
    ensures
        s.len() > 0 ==> (oldest_use(s) matches Some(t) && (0 <= i < s.len() ==> t <= s[i].last_used) && (exists|
            j: int,
        |
            0 <= j < s.len() && (#[trigger] s[j]).last_used == t)),
        s.len() > 0 ==> (newest_use(s) matches Some(t) && (0 <= i < s.len() ==> t >= s[i].last_used) && (exists|
            j: int,
        |
            0 <= j < s.len() && (#[trigger] s[j]).last_used == t)),
        s.len() == 0 ==> oldest_use(s) is None && newest_use(s) is None,
    decreases s.len(),
{
    if s.len() > 0 {
        let front = s.drop_last();
        lemma_uses(front, i);
        assert(s[s.len() - 1] == s.last());
        if front.len() > 0 {
            let a = oldest_use(front)->0;
            let j = choose|j: int| 0 <= j < front.len() && (#[trigger] front[j]).last_used == a;
            assert(s[j].last_used == a);
            let b = newest_use(front)->0;
            let k = choose|j: int| 0 <= j < front.len() && (#[trigger] front[j]).last_used == b;
            assert(s[k].last_used == b);
        }
    }
}

/// Objects of a kind are counted one by one.
pub proof fn law_count_of_a_kind(s: Seq<MetaView>, m: MetaView, kind: Kind)
    ensures
        count_kind(s.push(m), kind) == count_kind(s, kind) + if m.kind == kind { 1nat } else { 0nat },
        count_kind(Seq::empty(), kind) == 0,
{
    assert(s.push(m).drop_last() =~= s);
}

/// Deletions take the named objects out and leave all others as they are.
pub proof fn law_only_named_objects_are_deleted(o: Map<Seq<char>, Blob>, names: Seq<Seq<char>>, n: Seq<char>)
    ensures
        removed(o, names).dom().contains(n) <==> o.dom().contains(n) && !names.contains(n),
        removed(o, names).dom().contains(n) ==> removed(o, names)[n] == o[n],
    decreases names.len(),
{
    if names.len() > 0 {
        let front = names.drop_last();
        law_only_named_objects_are_deleted(o, front, n);
        if names.contains(n) {
            let i = choose|i: int| 0 <= i < names.len() && names[i] == n;
            if i < front.len() {
                assert(front[i] == n);
            }
        }
        if front.contains(n) {
            let i = choose|i: int| 0 <= i < front.len() && front[i] == n;
            assert(names[i] == n);
        }
        assert(names[names.len() - 1] == names.last());
    }
}

/// Objects of another root are told apart from a cache's own: each is one or the other.
pub proof fn law_own_and_foreign_objects(s: Seq<MetaView>, m: MetaView, root: Seq<u8>)
    ensures
        m.root == root ==> own(s.push(m), root) == own(s, root).push(m) && foreign(s.push(m), root) == foreign(
            s,
            root,
        ),
        m.root != root ==> own(s.push(m), root) == own(s, root) && foreign(s.push(m), root) == foreign(
            s,
            root,
        ).push(m.name()),
        own(Seq::empty(), root).len() == 0 && foreign(Seq::empty(), root).len() == 0,
{
    assert(s.push(m).drop_last() =~= s);
}

/// The list of what would go first: tier by tier from the lowest, each in the order of use.
pub proof fn law_list_of_what_goes_first(s: Seq<MetaView>, m: MetaView, p: Policies, t: u8)
    ensures
        tier(p, m) == t ==> of_tier(s.push(m), p, t) == of_tier(s, p, t).push(m),
        tier(p, m) != t ==> of_tier(s.push(m), p, t) == of_tier(s, p, t),
        eviction_list(s, p, t as int + 1) == eviction_list(s, p, t as int) + of_tier(s, p, t),
        eviction_list(s, p, 0) == Seq::<MetaView>::empty(),
{
    assert(s.push(m).drop_last() =~= s);
}

/// Of two objects the one with the lower number in the index is the older; of the same number the one
/// that was used earlier; and at the same time the one whose name comes first.
pub proof fn law_age_of_objects(lines: Seq<RecordView>, a: MetaView, b: MetaView)
    ensures
        stored_seq(lines, a) < stored_seq(lines, b) ==> older(lines, a, b) && !older(lines, b, a),
        stored_seq(lines, a) == stored_seq(lines, b) && a.last_used < b.last_used ==> older(lines, a, b)
            && !older(lines, b, a),
        stored_seq(lines, a) == stored_seq(lines, b) && a.last_used == b.last_used ==> older(lines, a, b)
            == before(a.name(), b.name()),
{
}

/// The index tells the number and the last use of an object by its name, the last line counting; what
/// it does not name has number zero and keeps the time of its header.
pub proof fn law_index_lines_are_found(lines: Seq<RecordView>, s: Seq<MetaView>, i: int, k: int)
    requires
        0 <= i < s.len(),
        0 <= k < lines.len(),
        forall|j: int| k < j < lines.len() ==> (#[trigger] lines[j]).name != s[i].name(),
    ensures
        lines[k].name == s[i].name() ==> stored_seq(lines, s[i]) == lines[k].seq && taken_up(s, lines)[i] == (
        MetaView { last_used: lines[k].last_used, ..s[i] }),
        lines[k].name != s[i].name() && k == 0 ==> stored_seq(lines, s[i]) == 0 && taken_up(s, lines)[i] == s[i],
        taken_up(s, lines).len() == s.len(),
{
    lemma_line_for(lines, s[i].name(), k);
}

proof fn lemma_line_for(lines: Seq<RecordView>, name: Seq<char>, k: int)
    requires
        0 <= k < lines.len(),
        forall|j: int| k < j < lines.len() ==> (#[trigger] lines[j]).name != name,
    ensures
        lines[k].name == name ==> line_for(lines, name) == Some(lines[k]),
        lines[k].name != name && k == 0 ==> line_for(lines, name) is None,
    decreases lines.len(),
{
    if k < lines.len() - 1 {
        assert(lines[lines.len() - 1].name != name);
        let front = lines.drop_last();
        assert forall|j: int| k < j < front.len() implies (#[trigger] front[j]).name != name by {
            assert(front[j] == lines[j]);
        }
        lemma_line_for(front, name, k);
    } else if lines[k].name != name && k == 0 {
        reveal_with_fuel(line_for, 2);
        assert(lines.drop_last().len() == 0);
    }
}

} // verus!
