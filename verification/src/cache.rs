//! The policy layer over a backend: an in-memory index of every object, LRU order, a byte
//! budget, and the restore-point search.
use crate::backend::{
    deletion_fails, index_fails, index_given, index_withheld, listing_fails, lists, metas, read_fails, write_answers, write_taken, Backend, Blob,
};
use crate::index::{
    in_age_order, index_bytes, lemma_reordered_names, lines_of, read_index, read_outcome,
    records_of, records_view, sort_by_age, take_up, taken_up, write_index, Record, RecordView,
};
use crate::key::PrefixKey;
use crate::object::{
    name_text, now, object_name, Kind, MetaView, ObjectError, ObjectMeta,
};
use crate::policy::{Policies, PRIORITY_MAX};
use crate::restore::{chain, deepest, rows_touched, snapshot_at, restorable};
use crate::shelf::{
    added, alive, alive_seqs, distinct, kept_seqs, lemma_alive_seqs, touched_seqs, used_seqs, without_seqs, evicted_names, idle_names, idle_out, is_at, kept, law_kept_fits,
    lemma_alive_not_named, lemma_kept_from, lemma_kept_not_named, sized,
    lemma_added, lemma_alive, lemma_distinct_remove, lemma_nothing_idle, lemma_position,
    lemma_total_remove, lemma_touched, lemma_used, lemma_victim, lemma_without, lookup, position, tier,
    total, touched, used, victim, without,
};
use crate::text::{owned, texts};
use crate::waiting::{
    apart, but_for, in_place, law_insert_spares_the_index, lemma_in_place_alive,
    lemma_in_place_kept, lemma_in_place_restored, lemma_in_place_touched, lemma_in_place_without,
    without_name,
};
use vstd::prelude::*;

verus! {

/// A resumable prefix: the snapshot at `pos` and the rows chunks covering `0..pos`, in order.
pub struct RestorePlan {
    pub pos: usize,
    pub snapshot: ObjectMeta,
    pub rows: Vec<ObjectMeta>,
}

/// Why an operation of the cache failed.
#[derive(Debug)]
pub enum CacheError {
    /// The object belongs to the store of another root.
    WrongRoot,
    /// The metadata of the object is not sound.
    Object(ObjectError),
    /// The object is not in the index.
    NotIndexed,
    /// The backend failed, with its message.
    Backend(String),
}

/// The state of a cache apart from its backend: the objects in the order of their last use, the
/// names that wait to be deleted, and the counters.
#[verifier::ext_equal]
pub struct CacheView {
    pub root: Seq<u8>,
    pub policies: Policies,
    pub budget: u64,
    pub entries: Seq<MetaView>,
    /// The number of use of each object.
    pub seqs: Seq<u64>,
    /// The last number of use that was given.
    pub seq: u64,
    pub pending: Seq<Seq<char>>,
    pub dirty: bool,
    pub hits: u64,
    pub misses: u64,
    pub evicted: u64,
    pub expired: u64,
}

/// Whether the backend holds the object, as the index lists it but for the time of last use.
pub open spec fn backed(m: MetaView, objects: Map<Seq<char>, Blob>) -> bool {
    objects.dom().contains(m.name()) && objects[m.name()].meta.used_at(m.last_used) == m
}

/// The objects without those names.
pub open spec fn removed(o: Map<Seq<char>, Blob>, names: Seq<Seq<char>>) -> Map<Seq<char>, Blob>
    decreases names.len(),
{
    if names.len() == 0 {
        o
    } else {
        removed(o, names.drop_last()).remove(names.last())
    }
}

/// Whether the deletion of some names, one after the other, stopped before number `k` with that
/// error: the names before it are gone, and the backend, as it then was, refused to delete that
/// one.
pub open spec fn stopped_at<B: Backend>(
    o0: Map<Seq<char>, Blob>,
    names: Seq<Seq<char>>,
    k: int,
    at: B,
    e: CacheError,
    o1: Map<Seq<char>, Blob>,
) -> bool {
    &&& 0 <= k < names.len()
    &&& at.objects() == removed(o0, names.subrange(0, k))
    &&& o1 == at.objects()
    &&& e matches CacheError::Backend(m) && deletion_fails(at, names[k], m)
}

/// Where the deletion of some names leads: all are gone, or it stopped at one of them.
pub open spec fn deletion_outcome<B: Backend>(
    o0: Map<Seq<char>, Blob>,
    names: Seq<Seq<char>>,
    r: Result<(), CacheError>,
    b1: B,
) -> bool {
    match r {
        Ok(_) => b1.objects() == removed(o0, names),
        Err(e) => exists|k: int, at: B| #[trigger] stopped_at(o0, names, k, at, e, b1.objects()),
    }
}

/// What a write that is handed to the backend does: one that the backend refuses changes nothing
/// and fails with the backend's error; one that it takes leads to the state `then`, and the names
/// `gone` are deleted.
pub open spec fn write_outcome<B: Backend>(
    b0: B,
    m: MetaView,
    body: Seq<u8>,
    then: CacheView,
    gone: Seq<Seq<char>>,
    r: Result<(), CacheError>,
    v0: CacheView,
    v1: CacheView,
    b1: B,
) -> bool {
    ||| {
        &&& r matches Err(CacheError::Backend(e)) && write_answers(b0, m, body, Err::<(), String>(e))
        &&& v1 == v0
        &&& b1.objects() == b0.objects()
    }
    ||| {
        &&& write_taken(b0, m, body)
        &&& body.len() == m.bytes
        &&& v1 == then
        &&& deletion_outcome(b0.objects().insert(m.name(), Blob { meta: m, body }), gone, r, b1)
    }
}

/// What a `put` at `now` does: the state and the backend before and after it, and its result. An
/// object that is already indexed or that is refused does not reach the backend.
pub open spec fn put_outcome<B: Backend>(
    v0: CacheView,
    b0: B,
    m: MetaView,
    body: Seq<u8>,
    now: u64,
    r: Result<(), CacheError>,
    v1: CacheView,
    b1: B,
) -> bool {
    if position(v0.entries, m.key, m.kind) is Some {
        r is Ok && v1 == v0.touch(m.key, m.kind, now) && b1 == b0
    } else if let Some(e) = v0.refusal(m) {
        r == Err::<(), CacheError>(e) && v1 == v0 && b1 == b0
    } else {
        write_outcome(b0, m, body, v0.insert(m, now), v0.insert_gone(m, now), r, v0, v1, b1)
    }
}

/// A write that the backend cannot but refuse leaves the index and the objects as they were.
pub proof fn law_refused_write_changes_nothing<B: Backend>(
    v0: CacheView,
    b0: B,
    m: MetaView,
    body: Seq<u8>,
    now: u64,
    r: Result<(), CacheError>,
    v1: CacheView,
    b1: B,
)
    requires
        position(v0.entries, m.key, m.kind) is None,
        !write_taken(b0, m, body),
        put_outcome(v0, b0, m, body, now, r, v1, b1),
    ensures
        r is Err,
        v1 == v0,
        b1.objects() == b0.objects(),
{
}

/// A counter after `n` more events; it wraps.
pub open spec fn counted(c: u64, n: nat) -> u64 {
    ((c + n) % 0x1_0000_0000_0000_0000) as u64
}

impl CacheView {
    /// Objects idle for longer than their role allows are dropped.
    pub open spec fn expire(self, now: u64) -> CacheView {
        let gone = idle_names(self.entries, self.policies, now);
        CacheView {
            entries: alive(self.entries, self.policies, now),
            seqs: alive_seqs(self.entries, self.seqs, self.policies, now),
            expired: counted(self.expired, gone.len()),
            dirty: self.dirty || gone.len() > 0,
            ..self
        }
    }

    /// Objects are dropped until the rest fits the budget.
    pub open spec fn evict(self) -> CacheView {
        let gone = evicted_names(self.entries, self.policies, self.budget);
        CacheView {
            entries: kept(self.entries, self.policies, self.budget),
            seqs: kept_seqs(self.entries, self.seqs, self.policies, self.budget),
            evicted: counted(self.evicted, gone.len()),
            dirty: self.dirty || gone.len() > 0,
            ..self
        }
    }

    /// The object of that key and kind, if it is there, was used at `now`.
    pub open spec fn touch(self, key: Seq<u8>, kind: Kind, now: u64) -> CacheView {
        let next = counted(self.seq, 1);
        CacheView {
            entries: touched(self.entries, key, kind, now),
            seqs: touched_seqs(self.entries, self.seqs, key, kind, next),
            seq: if position(self.entries, key, kind) is Some { next } else { self.seq },
            dirty: self.dirty || position(self.entries, key, kind) is Some,
            ..self
        }
    }

    /// The object of that key and kind is dropped.
    pub open spec fn remove(self, key: Seq<u8>, kind: Kind) -> CacheView {
        CacheView {
            entries: without(self.entries, key, kind),
            seqs: without_seqs(self.entries, self.seqs, key, kind),
            dirty: self.dirty || position(self.entries, key, kind) is Some,
            ..self
        }
    }

    /// Every object is dropped from the index.
    pub open spec fn emptied(self) -> CacheView {
        CacheView {
            entries: Seq::empty(),
            seqs: Seq::empty(),
            dirty: self.dirty || self.entries.len() > 0,
            ..self
        }
    }

    /// Whether an object may be stored here, or why not.
    pub open spec fn refusal(self, m: MetaView) -> Option<CacheError> {
        if m.root != self.root {
            Some(CacheError::WrongRoot)
        } else {
            match m.flaw() {
                Some(e) => Some(CacheError::Object(e)),
                None => None,
            }
        }
    }

    /// The state with a new object in it, before anything is dropped for it.
    pub open spec fn with(self, m: MetaView) -> CacheView {
        let next = counted(self.seq, 1);
        CacheView {
            entries: added(self.entries, m),
            seqs: without_seqs(self.entries, self.seqs, m.key, m.kind).push(next),
            seq: next,
            dirty: true,
            pending: Seq::empty(),
            ..self
        }
    }

    /// An object that was not there is indexed; idle objects and then, as far as the budget asks
    /// for it, others go.
    pub open spec fn insert(self, m: MetaView, now: u64) -> CacheView {
        self.with(m).expire(now).evict()
    }

    /// The names to delete when an object is indexed: those that were waiting, but for its own, the
    /// idle ones, the evicted ones.
    pub open spec fn insert_gone(self, m: MetaView, now: u64) -> Seq<Seq<char>> {
        let s = self.with(m);
        let t = s.expire(now);
        but_for(self.pending, m.name()) + idle_names(s.entries, self.policies, now) + evicted_names(
            t.entries,
            self.policies,
            self.budget,
        )
    }

    /// The first `n` rows of a plan were used, one after the other.
    pub open spec fn rows_used(self, rows: Seq<MetaView>, n: int, now: u64) -> CacheView
        decreases n,
    {
        if n <= 0 {
            self
        } else {
            self.rows_used(rows, n - 1, now).touch(rows[n - 1].key, Kind::Rows, now)
        }
    }

    /// The plan of a restore point was carried out: its rows in order, then its snapshot, were
    /// used.
    pub open spec fn restore(self, keys: Seq<Seq<u8>>, p: int, now: u64) -> CacheView {
        let rows = chain(self.entries, keys, p)->0;
        let snap = snapshot_at(self.entries, keys, p)->0;
        let s = self.rows_used(rows, rows.len() as int, now);
        CacheView {
            dirty: true,
            hits: counted(self.hits, 1),
            ..s.touch(snap.key, Kind::Snapshot, now)
        }
    }

    /// The state after the search for a restore point: what idled out waits for its deletion,
    /// and a hit uses its objects.
    pub open spec fn best_restore(self, keys: Seq<Seq<u8>>, now: u64) -> CacheView {
        let s = CacheView {
            pending: self.pending + idle_names(self.entries, self.policies, now),
            ..self.expire(now)
        };
        match deepest(s.entries, keys, keys.len() - 1) {
            Some(p) => s.restore(keys, p, now),
            None => CacheView { misses: counted(s.misses, 1), ..s },
        }
    }

    /// The counters and totals of the store.
    pub open spec fn stats(self) -> Stats {
        Stats {
            objects: self.entries.len() as usize,
            rows: count_kind(self.entries, Kind::Rows) as usize,
            snapshots: count_kind(self.entries, Kind::Snapshot) as usize,
            bytes: total(self.entries) as u64,
            budget: self.budget,
            oldest: oldest_use(self.entries),
            newest: newest_use(self.entries),
            hits: self.hits,
            misses: self.misses,
            evicted: self.evicted,
            expired: self.expired,
        }
    }

    /// The whole store fits its budget, no object is listed twice, each has its number of use, keys
    /// have their size, and every object is of the store's root and none waits to be deleted.
    pub open spec fn sound(self) -> bool {
        &&& self.seqs.len() == self.entries.len()
        &&& distinct(self.entries)
        &&& sized(self.entries)
        &&& total(self.entries) <= self.budget
        &&& in_place(self.entries, self.pending, self.root)
    }

    /// Whether the index lists nothing but objects that the backend holds, as it holds them
    /// (apart from the time of their last use).
    pub open spec fn agrees(self, objects: Map<Seq<char>, Blob>) -> bool {
        forall|i: int| #![trigger self.entries[i]]
            0 <= i < self.entries.len() ==> backed(self.entries[i], objects)
    }
}

/// What `open` found.
#[derive(Clone, Copy, Debug, PartialEq, Eq, Structural)]
pub struct OpenReport {
    pub objects: usize,
    /// Bytes of the objects before any was dropped for the budget (at most `u64::MAX`).
    pub bytes: u64,
    /// Objects of another engine identity, deleted (one store holds one root).
    pub dropped_foreign: usize,
    pub index_loaded: bool,
}

#[derive(Clone, Copy, Debug, PartialEq, Eq, Structural)]
pub struct Stats {
    pub objects: usize,
    pub rows: usize,
    pub snapshots: usize,
    pub bytes: u64,
    pub budget: u64,
    pub oldest: Option<u64>,
    pub newest: Option<u64>,
    pub hits: u64,
    pub misses: u64,
    pub evicted: u64,
    pub expired: u64,
}

/// The prefix cache over a backend.
pub struct Cache<B: Backend> {
    backend: B,
    root: PrefixKey,
    /// Least recently used first.
    entries: Vec<ObjectMeta>,
    /// The number of use of each entry.
    seqs: Vec<u64>,
    /// The last number of use that was given.
    seq: u64,
    policies: Policies,
    used: u128,
    budget: u64,
    dirty: bool,
    /// Names dropped from the index by expiry inside `best_restore`, awaiting backend deletion.
    pending_delete: Vec<String>,
    report: OpenReport,
    hits: u64,
    misses: u64,
    evicted: u64,
    expired: u64,
}

/// The position of an object in a list.
fn find_entry(entries: &Vec<ObjectMeta>, key: &PrefixKey, kind: Kind) -> (r: Option<usize>)
    ensures
        match r {
            Some(i) => position(metas(entries@), key@, kind) == Some(i as int) && i < entries@.len(),
            None => position(metas(entries@), key@, kind) is None,
        },
{
    let ghost s = metas(entries@);
    let mut n: usize = entries.len();
    assert(s.subrange(0, n as int) =~= s);
    while n > 0
        invariant
            n <= entries@.len(),
            s == metas(entries@),
            position(s, key@, kind) == position(s.subrange(0, n as int), key@, kind),
        decreases n,
    {
        let ghost t = s.subrange(0, n as int);
        if entries[n - 1].key == *key && entries[n - 1].kind == kind {
            assert(t.last() == entries@[n - 1]@);
            return Some(n - 1);
        }
        assert(t.last() == entries@[n - 1]@);
        assert(t.drop_last() =~= s.subrange(0, n - 1));
        n = n - 1;
    }
    None
}

proof fn lemma_metas_push(v: Seq<ObjectMeta>, m: ObjectMeta)
    ensures
        metas(v.push(m)) == metas(v).push(m@),
{
    assert(metas(v.push(m)) =~= metas(v).push(m@));
}

proof fn lemma_metas_remove(v: Seq<ObjectMeta>, i: int)
    requires
        0 <= i < v.len(),
    ensures
        metas(v.remove(i)) == metas(v).remove(i),
{
    assert(metas(v.remove(i)) =~= metas(v).remove(i));
}

fn push_name(v: &mut Vec<String>, s: String)
    ensures
        texts(final(v)@) == texts(old(v)@).push(s@),
{
    v.push(s);
    assert(texts(v@) =~= texts(old(v)@).push(s@));
}

fn append_names(v: &mut Vec<String>, w: Vec<String>)
    ensures
        texts(final(v)@) == texts(old(v)@) + texts(w@),
{
    let mut w = w;
    let ghost a = v@;
    let ghost b = w@;
    v.append(&mut w);
    assert(texts(v@) =~= texts(a) + texts(b));
}

impl<B: Backend> Cache<B> {
    /// The state of the cache apart from its backend.
    pub closed spec fn view(&self) -> CacheView {
        CacheView {
            root: self.root@,
            policies: self.policies,
            budget: self.budget,
            entries: metas(self.entries@),
            seqs: self.seqs@,
            seq: self.seq,
            pending: texts(self.pending_delete@),
            dirty: self.dirty,
            hits: self.hits,
            misses: self.misses,
            evicted: self.evicted,
            expired: self.expired,
        }
    }

    /// The backend.
    pub closed spec fn store(&self) -> B {
        self.backend
    }

    /// What `open` found.
    pub closed spec fn opened(&self) -> OpenReport {
        self.report
    }

    /// The counters agree with the index, which repeats nothing.
    spec fn counted_right(&self) -> bool {
        &&& self.backend.sound()
        &&& self.seqs@.len() == self.entries@.len()
        &&& distinct(metas(self.entries@))
        &&& self.used == total(metas(self.entries@))
    }

    /// The cache is in order: its index repeats nothing, fits the budget and lists nothing that is
    /// of another root or waits to be deleted.
    pub closed spec fn wf(&self) -> bool {
        &&& self.counted_right()
        &&& in_place(metas(self.entries@), texts(self.pending_delete@), self.root@)
        &&& total(metas(self.entries@)) <= self.budget
    }

    /// A cache in order repeats nothing and never exceeds its byte budget.
    pub proof fn law_within_budget(&self)
        requires
            self.wf(),
        ensures
            self.view().sound(),
    {
        self.lemma_sized();
    }

    proof fn lemma_sized(&self)
        ensures
            sized(self.view().entries),
    {
        let e = metas(self.entries@);
        assert forall|i: int| 0 <= i < e.len() implies (#[trigger] e[i]).key.len() == 16 by {
            assert(e[i].key == self.entries@[i].key.0@);
        }
    }

    fn touch_entry(&mut self, key: &PrefixKey, kind: Kind, now: u64)
        requires
            old(self).counted_right(),
        ensures
            final(self).counted_right(),
            final(self).view() == old(self).view().touch(key@, kind, now),
            final(self).store() == old(self).store(),
            final(self).opened() == old(self).opened(),
    {
        let ghost s = metas(self.entries@);
        if let Some(i) = find_entry(&self.entries, key, kind) {
            proof {
                lemma_used(s, i as int, now);
                lemma_metas_remove(self.entries@, i as int);
            }
            let mut m = self.entries.remove(i);
            m.last_used = now;
            proof {
                lemma_metas_push(self.entries@, m);
            }
            self.entries.push(m);
            self.seq = self.seq.wrapping_add(1);
            self.seqs.remove(i);
            self.seqs.push(self.seq);
            self.dirty = true;
            assert(metas(self.entries@) =~= used(s, i as int, now));
            assert(self.seqs@ =~= used_seqs(old(self).seqs@, i as int, self.seq));
        }
        assert(self.view() =~= old(self).view().touch(key@, kind, now));
    }

    fn remove_entry(&mut self, key: &PrefixKey, kind: Kind) -> (r: Option<ObjectMeta>)
        requires
            old(self).counted_right(),
        ensures
            final(self).counted_right(),
            final(self).view() == old(self).view().remove(key@, kind),
            final(self).store() == old(self).store(),
            final(self).opened() == old(self).opened(),
            match lookup(old(self).view().entries, key@, kind) {
                Some(m) => r matches Some(x) && x@ == m,
                None => r is None,
            },
    {
        let ghost s = metas(self.entries@);
        match find_entry(&self.entries, key, kind) {
            Some(i) => {
                proof {
                    lemma_distinct_remove(s, i as int);
                    lemma_total_remove(s, i as int);
                    lemma_metas_remove(self.entries@, i as int);
                }
                let m = self.entries.remove(i);
                self.seqs.remove(i);
                self.used = self.used - m.footprint_wide();
                self.dirty = true;
                assert(self.view() =~= old(self).view().remove(key@, kind));
                Some(m)
            },
            None => {
                assert(self.view() =~= old(self).view().remove(key@, kind));
                None
            },
        }
    }

    /// Drop objects that at `now` have been idle for longer than their role's `ttl` from the
    /// index; their names.
    pub fn expire_idle_at(&mut self, now: u64) -> (gone: Vec<String>)
        requires
            old(self).wf(),
        ensures
            final(self).wf(),
            final(self).view() == old(self).view().expire(now),
            final(self).store() == old(self).store(),
            final(self).opened() == old(self).opened(),
            texts(gone@) == idle_names(old(self).view().entries, old(self).view().policies, now),
    {
        proof {
            self.lemma_sized();
            lemma_alive(metas(self.entries@), self.policies, now);
            lemma_in_place_alive(
                metas(self.entries@),
                self.policies,
                now,
                texts(self.pending_delete@),
                self.root@,
            );
        }
        self.drop_idle(now)
    }

    fn drop_idle(&mut self, now: u64) -> (gone: Vec<String>)
        requires
            old(self).counted_right(),
        ensures
            final(self).counted_right(),
            final(self).view() == old(self).view().expire(now),
            final(self).store() == old(self).store(),
            final(self).opened() == old(self).opened(),
            texts(gone@) == idle_names(old(self).view().entries, old(self).view().policies, now),
    {
        let ghost s = metas(self.entries@);
        let ghost p = self.policies;
        let mut gone: Vec<String> = Vec::new();
        if !self.policies.any_ttl() {
            proof {
                lemma_nothing_idle(s, p, now);
                lemma_nothing_idle_seqs(s, self.seqs@, p, now);
            }
            assert(texts(gone@) =~= Seq::<Seq<char>>::empty());
            assert(self.view() =~= old(self).view().expire(now));
            return gone;
        }
        proof {
            lemma_alive(s, p, now);
        }
        let mut rest: Vec<ObjectMeta> = Vec::new();
        let mut numbers: Vec<u64> = Vec::new();
        let ghost q = self.seqs@;
        let mut left: u128 = 0;
        let n: usize = self.entries.len();
        let mut i: usize = 0;
        assert(metas(rest@) =~= alive(s.subrange(0, 0), p, now));
        assert(numbers@ =~= alive_seqs(s.subrange(0, 0), q.subrange(0, 0), p, now));
        assert(texts(gone@) =~= idle_names(s.subrange(0, 0), p, now));
        while i < n
            invariant
                i <= n,
                n == self.entries@.len(),
                s == metas(self.entries@),
                p == self.policies,
                self.counted_right(),
                metas(rest@) == alive(s.subrange(0, i as int), p, now),
                q == self.seqs@,
                numbers@ == alive_seqs(s.subrange(0, i as int), q.subrange(0, i as int), p, now),
                texts(gone@) == idle_names(s.subrange(0, i as int), p, now),
                left == total(metas(rest@)),
                left <= total(s.subrange(0, i as int)),
            decreases n - i,
        {
            let m = &self.entries[i];
            let dead: bool = match self.policies.of(m.role).ttl {
                Some(ttl) => now > m.last_used && now - m.last_used > ttl,
                None => false,
            };
            assert(dead == idle_out(p, s[i as int], now));
            let ghost pre = s.subrange(0, i as int);
            let ghost post = s.subrange(0, i + 1);
            assert(post.drop_last() =~= pre);
            assert(post.last() == s[i as int]);
            assert(q.subrange(0, i + 1).drop_last() =~= q.subrange(0, i as int));
            assert(q.subrange(0, i + 1).last() == q[i as int]);
            if dead {
                push_name(&mut gone, m.name());
            } else {
                proof {
                    lemma_metas_push(rest@, *m);
                    lemma_total_prefix(s, i + 1);
                    assert(metas(rest@).push(m@).drop_last() =~= metas(rest@));
                }
                left = left + m.footprint_wide();
                let copy = m.duplicate();
                proof {
                    lemma_metas_push(rest@, copy);
                }
                rest.push(copy);
                numbers.push(self.seqs[i]);
            }
            i = i + 1;
        }
        assert(s.subrange(0, n as int) =~= s);
        assert(q.subrange(0, n as int) =~= q);
        proof {
            lemma_alive_seqs(s, q, p, now, 0);
        }
        let k: u64 = gone.len() as u64;
        assert(texts(gone@).len() == gone@.len());
        self.expired = self.expired.wrapping_add(k);
        if gone.len() > 0 {
            self.dirty = true;
        }
        self.entries = rest;
        self.seqs = numbers;
        self.used = left;
        assert(self.view() =~= old(self).view().expire(now));
        gone
    }

    /// Drop least recently used objects from the index until the store fits the budget;
    /// returns their names for deletion.
    fn evict_to_budget(&mut self) -> (gone: Vec<String>)
        requires
            old(self).counted_right(),
            in_place(old(self).view().entries, old(self).view().pending, old(self).view().root),
        ensures
            final(self).wf(),
            final(self).view() == old(self).view().evict(),
            final(self).store() == old(self).store(),
            final(self).opened() == old(self).opened(),
            texts(gone@) == evicted_names(
                old(self).view().entries,
                old(self).view().policies,
                old(self).view().budget,
            ),
    {
        let ghost s0 = metas(self.entries@);
        let ghost p = self.policies;
        let ghost b = self.budget;
        let mut gone: Vec<String> = Vec::new();
        assert(texts(gone@) + evicted_names(s0, p, b) =~= evicted_names(s0, p, b));
        while self.used > self.budget as u128
            invariant
                self.counted_right(),
                self.policies == p,
                self.budget == b,
                self.root == old(self).root,
                self.pending_delete == old(self).pending_delete,
                self.hits == old(self).hits,
                self.misses == old(self).misses,
                self.expired == old(self).expired,
                self.evicted == counted(old(self).evicted, texts(gone@).len()),
                self.dirty == (old(self).dirty || texts(gone@).len() > 0),
                self.backend == old(self).backend,
                self.report == old(self).report,
                kept(metas(self.entries@), p, b) == kept(s0, p, b),
                kept_seqs(metas(self.entries@), self.seqs@, p, b) == kept_seqs(s0, old(self).seqs@, p, b),
                self.seq == old(self).seq,
                texts(gone@) + evicted_names(metas(self.entries@), p, b) == evicted_names(s0, p, b),
            decreases self.entries@.len(),
        {
            let ghost s = metas(self.entries@);
            assert(s.len() > 0) by {
                if s.len() == 0 {
                    assert(total(s) == 0);
                }
            }
            proof {
                lemma_victim(s, p);
                law_kept_fits(s, p, b);
            }
            let v: usize = self.find_victim();
            proof {
                lemma_distinct_remove(s, v as int);
                lemma_total_remove(s, v as int);
                lemma_metas_remove(self.entries@, v as int);
            }
            let m = self.entries.remove(v);
            self.seqs.remove(v);
            self.used = self.used - m.footprint_wide();
            self.dirty = true;
            self.evicted = self.evicted.wrapping_add(1);
            let ghost before = texts(gone@);
            push_name(&mut gone, m.name());
            proof {
                let rest = evicted_names(s.remove(v as int), p, b);
                assert(before.push(s[v as int].name()) + rest =~= before + (seq![s[v as int].name()]
                    + rest));
            }
        }
        assert(texts(gone@) =~= evicted_names(s0, p, b));
        proof {
            lemma_in_place_kept(s0, p, b, texts(self.pending_delete@), self.root@);
        }
        assert(self.view() =~= old(self).view().evict());
        gone
    }

    fn find_victim(&self) -> (v: usize)
        requires
            self.entries@.len() > 0,
        ensures
            v == victim(metas(self.entries@), self.policies),
            v < self.entries@.len(),
    {
        let ghost s = metas(self.entries@);
        let n: usize = self.entries.len();
        let mut v: usize = 0;
        let mut best: u8 = self.tier_of(&self.entries[0]);
        let mut i: usize = 1;
        while i < n
            invariant
                1 <= i <= n,
                n == self.entries@.len(),
                s == metas(self.entries@),
                v < i,
                v == victim(s.subrange(0, i as int), self.policies),
                best == tier(self.policies, s[v as int]),
            decreases n - i,
        {
            let t: u8 = self.tier_of(&self.entries[i]);
            assert(s.subrange(0, i + 1).drop_last() =~= s.subrange(0, i as int));
            if t < best {
                best = t;
                v = i;
            }
            i = i + 1;
        }
        assert(s.subrange(0, n as int) =~= s);
        v
    }

    fn tier_of(&self, meta: &ObjectMeta) -> (t: u8)
        ensures
            t == tier(self.policies, meta@),
    {
        let x: u8 = self.policies.of(meta.role).priority;
        if x > PRIORITY_MAX { PRIORITY_MAX } else { x }
    }
}

/// The keys of a list.
pub open spec fn key_views(keys: Seq<PrefixKey>) -> Seq<Seq<u8>> {
    Seq::new(keys.len(), |i: int| keys[i]@)
}

/// Rows followed by those of a list that was collected from the back.
spec fn preceded(rows: Option<Seq<MetaView>>, back: Seq<MetaView>) -> Option<Seq<MetaView>> {
    match rows {
        Some(r) => Some(r + back.reverse()),
        None => None,
    }
}

/// The list from back to front.
fn reversed(v: Vec<ObjectMeta>) -> (r: Vec<ObjectMeta>)
    ensures
        metas(r@) == metas(v@).reverse(),
{
    let mut v = v;
    let ghost all = metas(v@);
    let ghost n = v@.len();
    let mut r: Vec<ObjectMeta> = Vec::new();
    while v.len() > 0
        invariant
            all.len() == n,
            v@.len() + r@.len() == n,
            metas(v@) == all.subrange(0, v@.len() as int),
            metas(r@) == all.reverse().subrange(0, r@.len() as int),
        decreases v@.len(),
    {
        let ghost before = v@;
        if let Some(m) = v.pop() {
            proof {
                assert(metas(before)[before.len() - 1] == m@);
                assert(metas(v@) =~= all.subrange(0, v@.len() as int)) by {
                    assert(forall|i: int| 0 <= i < v@.len() ==> metas(v@)[i] == metas(before)[i]);
                }
                lemma_metas_push(r@, m);
            }
            r.push(m);
            assert(metas(r@) =~= all.reverse().subrange(0, r@.len() as int));
        }
    }
    assert(metas(r@) =~= all.reverse());
    r
}

/// Whether a plan is the one for position `p`.
pub open spec fn plan_for(
    plan: RestorePlan,
    s: Seq<MetaView>,
    keys: Seq<Seq<u8>>,
    p: int,
) -> bool {
    &&& plan.pos == p
    &&& snapshot_at(s, keys, p) == Some(plan.snapshot@)
    &&& chain(s, keys, p) == Some(metas(plan.rows@))
}

impl<B: Backend> Cache<B> {
    /// The rows chunks that cover `0..p`, in order.
    fn rows_back(&self, keys: &[PrefixKey], p: usize) -> (r: Option<Vec<ObjectMeta>>)
        requires
            self.counted_right(),
            p < keys@.len(),
        ensures
            match r {
                Some(v) => chain(self.view().entries, key_views(keys@), p as int) == Some(metas(v@)),
                None => chain(self.view().entries, key_views(keys@), p as int) is None,
            },
    {
        let ghost k = key_views(keys@);
        let ghost s = metas(self.entries@);
        let mut back: Vec<ObjectMeta> = Vec::new();
        let mut cur: usize = p;
        assert(preceded(chain(s, k, p as int), metas(back@)) == chain(s, k, p as int)) by {
            assert(metas(back@).reverse() =~= Seq::<MetaView>::empty());
            if let Some(rows) = chain(s, k, p as int) {
                assert(rows + metas(back@).reverse() =~= rows);
            }
        }
        while cur > 0
            invariant
                cur <= p,
                p < keys@.len(),
                k == key_views(keys@),
                s == metas(self.entries@),
                chain(s, k, p as int) == preceded(chain(s, k, cur as int), metas(back@)),
            decreases cur,
        {
            assert(k[cur as int] == keys@[cur as int]@);
            match find_entry(&self.entries, &keys[cur], Kind::Rows) {
                Some(i) => {
                    let e = &self.entries[i];
                    assert(s[i as int] == e@);
                    if e.start < cur {
                        assert(k[e.start as int] == keys@[e.start as int]@);
                    }
                    if e.end == cur && e.start < cur && keys[e.start] == e.parent {
                        let c = e.duplicate();
                        proof {
                            lemma_metas_push(back@, c);
                            let old_back = metas(back@);
                            let new_back = old_back.push(c@);
                            if let Some(rows) = chain(s, k, e.start as int) {
                                assert(rows.push(e@) + old_back.reverse() =~= rows
                                    + new_back.reverse());
                            }
                        }
                        back.push(c);
                        cur = e.start;
                    } else {
                        return None;
                    }
                },
                None => {
                    return None;
                },
            }
        }
        let rows = reversed(back);
        assert(Seq::<MetaView>::empty() + metas(rows@) =~= metas(rows@));
        Some(rows)
    }

    /// The snapshot at position `p`.
    fn snapshot_back(&self, keys: &[PrefixKey], p: usize) -> (r: Option<ObjectMeta>)
        requires
            p < keys@.len(),
        ensures
            match r {
                Some(m) => snapshot_at(self.view().entries, key_views(keys@), p as int) == Some(m@),
                None => snapshot_at(self.view().entries, key_views(keys@), p as int) is None,
            },
    {
        assert(key_views(keys@)[p as int] == keys@[p as int]@);
        match find_entry(&self.entries, &keys[p], Kind::Snapshot) {
            Some(i) => {
                let e = &self.entries[i];
                assert(metas(self.entries@)[i as int] == e@);
                if e.end == p { Some(e.duplicate()) } else { None }
            },
            None => None,
        }
    }

    /// The deepest restore point of a prompt whose prefix keys are `keys` (`keys[p]` = hash of
    /// positions `0..p`): the largest `p >= 1` with a snapshot whose rows chunks chain back to
    /// position 0 through objects that are all present. Uses every object of the plan.
    /// Objects that have idled out at `now` are dropped from the index first (the caller deletes
    /// them: `take_pending_delete`).
    pub fn best_restore_at(&mut self, keys: &[PrefixKey], now: u64) -> (r: Option<RestorePlan>)
        requires
            old(self).wf(),
        ensures
            final(self).wf(),
            final(self).view() == old(self).view().best_restore(key_views(keys@), now),
            final(self).store() == old(self).store(),
            final(self).opened() == old(self).opened(),
            ({
                let s = old(self).view().expire(now).entries;
                let k = key_views(keys@);
                match deepest(s, k, k.len() - 1) {
                    Some(p) => r matches Some(plan) && plan_for(plan, s, k, p),
                    None => r is None,
                }
            }),
    {
        let ghost k = key_views(keys@);
        let ghost v0 = self.view();
        proof {
            self.lemma_sized();
            lemma_alive(v0.entries, self.policies, now);
            lemma_in_place_alive(v0.entries, self.policies, now, v0.pending, v0.root);
        }
        let gone = self.drop_idle(now);
        append_names(&mut self.pending_delete, gone);
        let ghost v1 = self.view();
        let ghost s = v1.entries;
        let n: usize = keys.len();
        let mut p: usize = n;
        assert(v1 == (CacheView {
            pending: v0.pending + idle_names(v0.entries, v0.policies, now),
            ..v0.expire(now)
        }));
        assert(k.len() == n);
        while p > 1
            invariant
                p <= n,
                n == keys@.len(),
                k == key_views(keys@),
                n >= 1 ==> p >= 1,
                self.counted_right(),
                total(metas(self.entries@)) <= self.budget,
                self.view() == v1,
                s == v1.entries,
                in_place(v1.entries, v1.pending, v1.root),
                self.store() == old(self).store(),
                self.opened() == old(self).opened(),
                v0 == old(self).view(),
                v1 == (CacheView {
                    pending: v0.pending + idle_names(v0.entries, v0.policies, now),
                    ..v0.expire(now)
                }),
                p >= 1 ==> deepest(s, k, n - 1) == deepest(s, k, p - 1),
            decreases p,
        {
            p = p - 1;
            let snap = self.snapshot_back(keys, p);
            if let Some(snapshot) = snap {
                let rows = self.rows_back(keys, p);
                if let Some(rows) = rows {
                    assert(restorable(s, k, p as int));
                    proof {
                        lemma_position(s, k[p as int], Kind::Snapshot);
                    }
                    proof {
                        lemma_rows_used(v1, metas(rows@), rows@.len() as int, now);
                        lemma_in_place_restored(v1, k, p as int, now);
                    }
                    self.use_plan(&rows, &snapshot, now);
                    self.hits = self.hits.wrapping_add(1);
                    assert(self.view() =~= v1.restore(k, p as int, now));
                    return Some(RestorePlan { pos: p, snapshot, rows });
                }
            }
            assert(!restorable(s, k, p as int));
        }
        self.misses = self.misses.wrapping_add(1);
        assert(deepest(s, k, n - 1) is None);
        assert(self.view() =~= old(self).view().best_restore(k, now));
        None
    }

    fn use_plan(&mut self, rows: &Vec<ObjectMeta>, snapshot: &ObjectMeta, now: u64)
        requires
            old(self).counted_right(),
            total(metas(old(self).entries@)) <= old(self).budget,
            lookup(old(self).view().entries, snapshot.key@, Kind::Snapshot) is Some,
        ensures
            final(self).counted_right(),
            total(metas(final(self).entries@)) <= final(self).budget,
            final(self).view() == old(self).view().rows_used(
                metas(rows@),
                rows@.len() as int,
                now,
            ).touch(snapshot.key@, Kind::Snapshot, now),
            final(self).view().dirty,
            final(self).store() == old(self).store(),
            final(self).opened() == old(self).opened(),
    {
        let ghost v0 = self.view();
        let ghost s = v0.entries;
        let n: usize = rows.len();
        let mut i: usize = 0;
        while i < n
            invariant
                i <= n,
                n == rows@.len(),
                self.counted_right(),
                total(metas(self.entries@)) == total(s),
                distinct(s),
                self.budget == v0.budget,
                self.view().entries == rows_touched(s, metas(rows@), i as int, now),
                v0 == old(self).view(),
                self.view() == v0.rows_used(metas(rows@), i as int, now),
                self.store() == old(self).store(),
                self.opened() == old(self).opened(),
            decreases n - i,
        {
            proof {
                lemma_touched(self.view().entries, rows@[i as int].key@, Kind::Rows, now);
            }
            self.touch_entry(&rows[i].key, Kind::Rows, now);
            i = i + 1;
        }
        proof {
            let t = self.view().entries;
            lemma_touched(t, snapshot.key@, Kind::Snapshot, now);
            crate::restore::lemma_rows_touched(s, metas(rows@), n as int, now);
            lemma_present_after_rows(s, metas(rows@), n as int, now, snapshot.key@);
        }
        self.touch_entry(&snapshot.key, Kind::Snapshot, now);
    }
}

/// Using rows counts no hit.
proof fn lemma_rows_used(v: CacheView, rows: Seq<MetaView>, n: int, now: u64)
    ensures
        v.rows_used(rows, n, now).hits == v.hits,
    decreases n,
{
    if n > 0 {
        lemma_rows_used(v, rows, n - 1, now);
    }
}

/// Where nothing expires, all numbers stay.
proof fn lemma_nothing_idle_seqs(s: Seq<MetaView>, q: Seq<u64>, p: Policies, now: u64)
    requires
        q.len() == s.len(),
        forall|role: crate::role::Role| (#[trigger] p.policy(role)).ttl is None,
    ensures
        alive_seqs(s, q, p, now) == q,
    decreases s.len(),
{
    if s.len() > 0 {
        lemma_nothing_idle_seqs(s.drop_last(), q.drop_last(), p, now);
        assert(alive_seqs(s, q, p, now) =~= q);
    } else {
        assert(alive_seqs(s, q, p, now) =~= q);
    }
}

/// Using rows does not make a snapshot disappear.
proof fn lemma_present_after_rows(s: Seq<MetaView>, rows: Seq<MetaView>, n: int, now: u64, key: Seq<u8>)
    requires
        distinct(s),
        position(s, key, Kind::Snapshot) is Some,
    ensures
        position(rows_touched(s, rows, n, now), key, Kind::Snapshot) is Some,
    decreases n,
{
    if n > 0 {
        lemma_present_after_rows(s, rows, n - 1, now, key);
        crate::restore::lemma_rows_touched(s, rows, n - 1, now);
        lemma_present_after_touch(
            rows_touched(s, rows, n - 1, now),
            rows[n - 1].key,
            Kind::Rows,
            now,
            key,
            Kind::Snapshot,
        );
    }
}

/// Using one object keeps every other.
proof fn lemma_present_after_touch(
    s: Seq<MetaView>,
    key: Seq<u8>,
    kind: Kind,
    now: u64,
    other: Seq<u8>,
    other_kind: Kind,
)
    requires
        position(s, other, other_kind) is Some,
    ensures
        position(touched(s, key, kind, now), other, other_kind) is Some,
{
    lemma_position(s, key, kind);
    lemma_position(s, other, other_kind);
    let t = touched(s, key, kind, now);
    lemma_position(t, other, other_kind);
    if let Some(i) = position(s, key, kind) {
        let j = position(s, other, other_kind)->0;
        if j == i {
            assert(is_at(t[t.len() - 1], other, other_kind));
        } else {
            let x = if j < i { j } else { j - 1 };
            assert(t[x] == s[j]);
            assert(is_at(t[x], other, other_kind));
        }
    }
}

/// After a successful `put` the index still lists nothing but what the backend holds.
pub proof fn law_put_keeps_agreement<B: Backend>(
    v0: CacheView,
    b0: B,
    m: MetaView,
    body: Seq<u8>,
    now: u64,
    v1: CacheView,
    b1: B,
)
    requires
        v0.sound(),
        m.key.len() == 16,
        v0.agrees(b0.objects()),
        put_outcome(v0, b0, m, body, now, Ok(()), v1, b1),
    ensures
        v1.agrees(b1.objects()),
{
    let o0 = b0.objects();
    let o1 = b1.objects();
    if position(v0.entries, m.key, m.kind) is Some {
        lemma_position(v0.entries, m.key, m.kind);
        let i = position(v0.entries, m.key, m.kind)->0;
        assert forall|k: int| #![trigger v1.entries[k]] 0 <= k < v1.entries.len() implies backed(
            v1.entries[k],
            o1,
        ) by {
            let q = if k == v1.entries.len() - 1 { i } else if k < i { k } else { k + 1 };
            assert(backed(v0.entries[q], o0));
            assert(v1.entries[k].name() == v0.entries[q].name());
        }
    } else {
        let stored = o0.insert(m.name(), Blob { meta: m, body });
        let gone = v0.insert_gone(m, now);
        let p = v0.policies;
        let s = v0.with(m).entries;
        let t = alive(s, p, now);
        let u = kept(t, p, v0.budget);
        lemma_added(v0.entries, m);
        lemma_position(v0.entries, m.key, m.kind);
        lemma_alive(s, p, now);
        law_insert_spares_the_index(v0, m, now);
        assert forall|k: int| #![trigger v1.entries[k]] 0 <= k < v1.entries.len() implies backed(
            v1.entries[k],
            o1,
        ) by {
            let e = u[k];
            assert(u.contains(e));
            lemma_kept_from(t, p, v0.budget, e);
            let j = choose|j: int| 0 <= j < t.len() && t[j] == e;
            assert(s.contains(t[j]));
            let q = choose|q: int| 0 <= q < s.len() && s[q] == e;
            if q < s.len() - 1 {
                assert(v0.entries[q] == e);
                assert(backed(v0.entries[q], o0));
                assert(!is_at(v0.entries[q], m.key, m.kind));
                if e.name() == m.name() {
                    crate::object::law_names_distinct(e.key, e.kind, m.key, m.kind);
                }
            } else {
                assert(e == m);
            }
            assert(!gone.contains(v1.entries[k].name()));
            lemma_removed_keeps(stored, gone, e.name());
            assert(backed(e, stored));
        }
    }
}

proof fn lemma_removed_keeps(o: Map<Seq<char>, Blob>, names: Seq<Seq<char>>, n: Seq<char>)
    requires
        !names.contains(n),
    ensures
        removed(o, names).dom().contains(n) == o.dom().contains(n),
        o.dom().contains(n) ==> removed(o, names)[n] == o[n],
    decreases names.len(),
{
    if names.len() > 0 {
        let h = names.drop_last();
        assert(!h.contains(n)) by {
            if h.contains(n) {
                let i = choose|i: int| 0 <= i < h.len() && h[i] == n;
                assert(names[i] == n);
            }
        }
        assert(names[names.len() - 1] != n);
        lemma_removed_keeps(o, h, n);
    }
}

impl<B: Backend> Cache<B> {
    /// Validate an object for this store before writing it.
    pub fn check(&self, meta: &ObjectMeta) -> (r: Result<(), CacheError>)
        ensures
            match self.view().refusal(meta@) {
                Some(e) => r == Err::<(), CacheError>(e),
                None => r is Ok,
            },
    {
        if meta.root != self.root {
            return Err(CacheError::WrongRoot);
        }
        match meta.validate() {
            Ok(_) => Ok(()),
            Err(e) => Err(CacheError::Object(e)),
        }
    }

    /// Index an object the backend already holds; returns the names evicted (or expired) to
    /// stay within the budget (already gone from the index; the caller deletes them from the
    /// backend). An object that is already indexed is marked as used.
    pub fn insert_at(&mut self, meta: ObjectMeta, now: u64) -> (r: Result<Vec<String>, CacheError>)
        requires
            old(self).wf(),
        ensures
            final(self).wf(),
            final(self).store() == old(self).store(),
            final(self).opened() == old(self).opened(),
            r matches Ok(gone) ==> apart(final(self).view().entries, texts(gone@)),
            ({
                let v = old(self).view();
                let m = meta@;
                if position(v.entries, m.key, m.kind) is Some {
                    &&& r matches Ok(gone)
                    &&& texts(gone@) == v.pending
                    &&& final(self).view() == (CacheView {
                        pending: Seq::empty(),
                        ..v.touch(m.key, m.kind, now)
                    })
                } else if let Some(e) = v.refusal(m) {
                    r == Err::<Vec<String>, CacheError>(e) && final(self).view() == v
                } else {
                    &&& r matches Ok(gone)
                    &&& texts(gone@) == v.insert_gone(m, now)
                    &&& final(self).view() == v.insert(m, now)
                }
            }),
    {
        let ghost v = self.view();
        let ghost m = meta@;
        let found = find_entry(&self.entries, &meta.key, meta.kind);
        if found.is_some() {
            proof {
                lemma_touched(v.entries, m.key, m.kind, now);
                lemma_in_place_touched(v.entries, m.key, m.kind, now, v.pending, v.root);
            }
            self.touch_entry(&meta.key, meta.kind, now);
            let gone = self.take_pending();
            return Ok(gone);
        }
        if let Err(e) = self.check(&meta) {
            return Err(e);
        }
        proof {
            self.law_within_budget();
            law_insert_spares_the_index(v, m, now);
            lemma_added(v.entries, m);
            assert(without(v.entries, m.key, m.kind) == v.entries);
            lemma_metas_push(self.entries@, meta);
        }
        let name: String = meta.name();
        self.used = self.used + meta.footprint_wide();
        self.entries.push(meta);
        self.seq = self.seq.wrapping_add(1);
        self.seqs.push(self.seq);
        self.dirty = true;
        let waiting = self.take_pending();
        let mut gone = without_name(waiting, name.as_str());
        assert(self.view() =~= v.with(m));
        proof {
            let s = v.with(m).entries;
            self.lemma_sized();
            assert forall|i: int| 0 <= i < s.len() implies (#[trigger] s[i]).root == v.root by {
                if i < v.entries.len() {
                    assert(s[i] == v.entries[i]);
                }
            }
            lemma_in_place_alive(s, v.policies, now, Seq::empty(), v.root);
        }
        let idle = self.drop_idle(now);
        append_names(&mut gone, idle);
        let over = self.evict_to_budget();
        append_names(&mut gone, over);
        Ok(gone)
    }

    /// Names dropped from the index by `best_restore`'s expiry that still need deleting.
    pub fn take_pending_delete(&mut self) -> (v: Vec<String>)
        requires
            old(self).wf(),
        ensures
            final(self).wf(),
            texts(v@) == old(self).view().pending,
            final(self).view() == (CacheView { pending: Seq::empty(), ..old(self).view() }),
            final(self).store() == old(self).store(),
            final(self).opened() == old(self).opened(),
    {
        self.take_pending()
    }

    fn take_pending(&mut self) -> (v: Vec<String>)
        requires
            old(self).counted_right(),
        ensures
            final(self).counted_right(),
            texts(v@) == old(self).view().pending,
            final(self).view() == (CacheView { pending: Seq::empty(), ..old(self).view() }),
            final(self).store() == old(self).store(),
            final(self).opened() == old(self).opened(),
    {
        let mut v: Vec<String> = Vec::new();
        v.append(&mut self.pending_delete);
        assert(texts(v@) =~= texts(old(self).pending_delete@));
        assert(texts(self.pending_delete@) =~= Seq::<Seq<char>>::empty());
        assert(self.view() =~= (CacheView { pending: Seq::empty(), ..old(self).view() }));
        v
    }

    /// Delete names from the backend, up to the first failure.
    pub(crate) fn delete_all(&mut self, names: &Vec<String>) -> (r: Result<(), CacheError>)
        requires
            old(self).wf(),
        ensures
            final(self).wf(),
            final(self).view() == old(self).view(),
            final(self).opened() == old(self).opened(),
            final(self).store().stored_index() == old(self).store().stored_index(),
            final(self).store().place() == old(self).store().place(),
            deletion_outcome(old(self).store().objects(), texts(names@), r, final(self).store()),
    {
        let ghost o = self.backend.objects();
        let ghost t = texts(names@);
        let n: usize = names.len();
        let mut i: usize = 0;
        assert(t.subrange(0, 0) =~= Seq::<Seq<char>>::empty());
        while i < n
            invariant
                i <= n,
                n == names@.len(),
                t == texts(names@),
                o == old(self).backend.objects(),
                self.wf(),
                self.view() == old(self).view(),
                self.opened() == old(self).opened(),
                self.backend.stored_index() == old(self).backend.stored_index(),
                self.backend.place() == old(self).backend.place(),
                self.backend.objects() == removed(o, t.subrange(0, i as int)),
            decreases n - i,
        {
            let ghost at = self.backend;
            let d = self.backend.delete(names[i].as_str());
            if let Err(e) = d {
                assert(deletion_fails(at, t[i as int], e));
                assert(stopped_at(o, t, i as int, at, CacheError::Backend(e), self.store().objects()));
                return Err(CacheError::Backend(e));
            }
            assert(t.subrange(0, i + 1).drop_last() =~= t.subrange(0, i as int));
            i = i + 1;
        }
        assert(t.subrange(0, n as int) =~= t);
        Ok(())
    }

    /// Store an object (one that is already indexed is only marked as used): the backend write,
    /// then `insert_at`, then the deletions that it asks for.
    pub fn put_at(&mut self, meta: ObjectMeta, body: &[u8], now: u64) -> (r: Result<(), CacheError>)
        requires
            old(self).wf(),
        ensures
            final(self).wf(),
            final(self).opened() == old(self).opened(),
            final(self).store().stored_index() == old(self).store().stored_index(),
            put_outcome(
                old(self).view(),
                old(self).store(),
                meta@,
                body@,
                now,
                r,
                final(self).view(),
                final(self).store(),
            ),
    {
        let ghost v = self.view();
        let ghost m = meta@;
        let found = find_entry(&self.entries, &meta.key, meta.kind);
        if found.is_some() {
            proof {
                lemma_touched(v.entries, m.key, m.kind, now);
                lemma_in_place_touched(v.entries, m.key, m.kind, now, v.pending, v.root);
            }
            self.touch_entry(&meta.key, meta.kind, now);
            return Ok(());
        }
        if let Err(e) = self.check(&meta) {
            return Err(e);
        }
        let ghost at = self.backend;
        let w = self.backend.put(&meta, body);
        assert(write_answers(at, m, body@, w));
        assert(self.view() == v);
        if let Err(e) = w {
            return Err(CacheError::Backend(e));
        }
        assert(write_taken(at, m, body@));
        let inserted = self.insert_at(meta, now);
        match inserted {
            Ok(gone) => {
                let d = self.delete_all(&gone);
                assert(texts(gone@) == v.insert_gone(m, now));
                d
            },
            Err(e) => Err(e),
        }
    }
}

/// The objects of that root.
pub open spec fn own(s: Seq<MetaView>, root: Seq<u8>) -> Seq<MetaView>
    decreases s.len(),
{
    if s.len() == 0 {
        Seq::empty()
    } else if s.last().root == root {
        own(s.drop_last(), root).push(s.last())
    } else {
        own(s.drop_last(), root)
    }
}

/// The names of the objects of other roots.
pub open spec fn foreign(s: Seq<MetaView>, root: Seq<u8>) -> Seq<Seq<char>>
    decreases s.len(),
{
    if s.len() == 0 {
        Seq::empty()
    } else if s.last().root == root {
        foreign(s.drop_last(), root)
    } else {
        foreign(s.drop_last(), root).push(s.last().name())
    }
}

/// The lines to go by: none where no index was loaded.
pub open spec fn lines_or_none(lines: Option<Seq<RecordView>>) -> Seq<RecordView> {
    match lines {
        Some(l) => l,
        None => Seq::empty(),
    }
}

/// The numbers of use of `n` objects that are taken up one after the other.
pub open spec fn first_seqs(n: nat) -> Seq<u64> {
    Seq::new(n, |i: int| (i + 1) as u64)
}

/// The state in which a store is taken up, before anything is dropped: the objects in order, the
/// counters at 0, the index to be written where none was loaded.
pub open spec fn first_state(
    root: Seq<u8>,
    policies: Policies,
    budget: u64,
    entries: Seq<MetaView>,
    loaded: bool,
) -> CacheView {
    CacheView {
        root,
        policies,
        budget,
        entries,
        seqs: first_seqs(entries.len()),
        seq: entries.len() as u64,
        pending: Seq::empty(),
        dirty: !loaded,
        hits: 0,
        misses: 0,
        evicted: 0,
        expired: 0,
    }
}

/// What a listing of a store, sorted, makes of it at `now`.
#[verifier::ext_equal]
pub struct Opening {
    /// What the backend listed.
    pub listed: Seq<MetaView>,
    /// The stored index, where one of this format and root was read.
    pub lines: Option<Seq<RecordView>>,
    /// The objects of this root from the oldest to the most recently used.
    pub sorted: Seq<MetaView>,
}

impl Opening {
    /// The state before anything is dropped.
    pub open spec fn start(self, root: Seq<u8>, policies: Policies, budget: u64) -> CacheView {
        first_state(
            root,
            policies,
            budget,
            taken_up(self.sorted, lines_or_none(self.lines)),
            self.lines is Some,
        )
    }

    /// The names of this root that are deleted: the idle ones, the evicted ones.
    pub open spec fn gone(self, root: Seq<u8>, policies: Policies, budget: u64, now: u64) -> Seq<
        Seq<char>,
    > {
        let v = self.start(root, policies, budget);
        idle_names(v.entries, policies, now) + evicted_names(
            v.expire(now).entries,
            policies,
            budget,
        )
    }

    /// Whether the parts fit a backend with those objects, of whose index that was given out. An
    /// index of another format or root counts as none.
    pub open spec fn fits(
        self,
        objects: Map<Seq<char>, Blob>,
        index: Option<Seq<u8>>,
        root: Seq<u8>,
    ) -> bool {
        &&& lists(self.listed, objects)
        &&& match index {
            Some(b) => read_outcome(b, root, self.lines),
            None => self.lines is None,
        }
        &&& self.sorted.to_multiset() == own(self.listed, root).to_multiset()
        &&& in_age_order(self.sorted, lines_or_none(self.lines))
    }

    /// What is reported of it.
    pub open spec fn reported(self, root: Seq<u8>, policies: Policies, budget: u64, r: OpenReport) -> bool {
        &&& r.objects == self.sorted.len()
        &&& r.dropped_foreign == foreign(self.listed, root).len()
        &&& r.index_loaded == self.lines is Some
        &&& total(self.start(root, policies, budget).entries) <= u64::MAX ==> r.bytes == total(
            self.start(root, policies, budget).entries,
        )
        &&& total(self.start(root, policies, budget).entries) > u64::MAX ==> r.bytes == u64::MAX
    }
}

/// Why a store could not be opened at `now`: the backend did not list its objects, or listed more
/// than any memory holds, or did not delete an object of another root, or one that idled out or
/// did not fit the budget.
pub open spec fn opening_fails<B: Backend>(
    backend: B,
    root: Seq<u8>,
    policies: Policies,
    budget: u64,
    now: u64,
    e: CacheError,
) -> bool {
    let all = backend.objects();
    ||| exists|at: B, m: String|
        at.objects() == all && #[trigger] listing_fails(at, m) && e == CacheError::Backend(m)
    ||| exists|l: Seq<MetaView>| #[trigger] lists(l, all) && l.len() > LISTED_MAX && e is Backend
    ||| exists|l: Seq<MetaView>, k: int, at: B|
        #![trigger lists(l, all), stopped_at(all, foreign(l, root), k, at, e, at.objects())]
        lists(l, all) && stopped_at(all, foreign(l, root), k, at, e, at.objects())
    ||| exists|o: Opening, index: Option<Seq<u8>>, k: int, at: B|
        #![trigger o.fits(all, index, root), stopped_at(removed(all, foreign(o.listed, root)), o.gone(root, policies, budget, now), k, at, e, at.objects())]
        index_given(backend, index) && o.fits(all, index, root) && stopped_at(
            removed(all, foreign(o.listed, root)),
            o.gone(root, policies, budget, now),
            k,
            at,
            e,
            at.objects(),
        )
}

/// The most objects that are taken up; more than any memory holds.
pub const LISTED_MAX: u64 = 0xff_ffff_ffff_ffff;

/// What `c` is where a store was opened at `now`: what is taken up of the listing and of the index
/// as the backend gave it out, less what idled out or does not fit the budget.
pub open spec fn opened_as<B: Backend>(
    backend: B,
    c: Cache<B>,
    o: Opening,
    index: Option<Seq<u8>>,
    root: Seq<u8>,
    policies: Policies,
    budget: u64,
    now: u64,
) -> bool {
    &&& index_given(backend, index)
    &&& o.fits(backend.objects(), index, root)
    &&& c.view() == o.start(root, policies, budget).expire(now).evict()
    &&& c.store().objects() == removed(
        removed(backend.objects(), foreign(o.listed, root)),
        o.gone(root, policies, budget, now),
    )
    &&& o.reported(root, policies, budget, c.opened())
}

pub(crate) proof fn lemma_own(s: Seq<MetaView>, root: Seq<u8>)
    requires
        forall|a: int, b: int| 0 <= a < b < s.len() ==> (#[trigger] s[a]).name() != (#[trigger] s[b]).name(),
    ensures
        forall|i: int|
            0 <= i < own(s, root).len() ==> s.contains(#[trigger] own(s, root)[i]) && own(s, root)[i].root
                == root,
        forall|a: int, b: int|
            0 <= a < b < own(s, root).len() ==> (#[trigger] own(s, root)[a]).name() != (#[trigger] own(
                s,
                root,
            )[b]).name(),
        forall|i: int, j: int|
            0 <= i < own(s, root).len() && 0 <= j < foreign(s, root).len() ==> (#[trigger] own(
                s,
                root,
            )[i]).name() != #[trigger] foreign(s, root)[j],
        forall|j: int|
            0 <= j < foreign(s, root).len() ==> named_in(s, #[trigger] foreign(s, root)[j]),
    decreases s.len(),
{
    if s.len() > 0 {
        let h = s.drop_last();
        lemma_own(h, root);
        let x = s.last();
        let o = own(s, root);
        let f = foreign(s, root);
        let oh = own(h, root);
        let fh = foreign(h, root);
        assert forall|i: int| 0 <= i < oh.len() implies (#[trigger] oh[i]).name() != x.name()
            && s.contains(oh[i]) by {
            assert(h.contains(oh[i]));
            let q = choose|q: int| 0 <= q < h.len() && h[q] == oh[i];
            assert(s[q] == oh[i]);
            assert(s[q].name() != s[s.len() - 1].name());
        }
        assert forall|j: int| 0 <= j < fh.len() implies #[trigger] fh[j] != x.name() && named_in(
            s,
            fh[j],
        ) by {
            assert(named_in(h, fh[j]));
            let q = choose|q: int| 0 <= q < h.len() && (#[trigger] h[q]).name() == fh[j];
            assert(s[q] == h[q]);
            assert(s[q].name() != s[s.len() - 1].name());
        }
        assert(s.contains(x)) by {
            assert(s[s.len() - 1] == x);
        }
        assert(named_in(s, x.name())) by {
            assert(s[s.len() - 1] == x);
        }
    }
}

/// Whether an object of the list has that name.
pub open spec fn named_in(s: Seq<MetaView>, n: Seq<char>) -> bool {
    exists|q: int| 0 <= q < s.len() && (#[trigger] s[q]).name() == n
}

impl<B: Backend> Cache<B> {
    /// Open a store at `now`: list the backend's objects (the authority), drop objects of
    /// another root, and take the LRU order from the stored index when there is one. Fails where
    /// the backend fails to list or to delete, or lists more objects than any memory holds.
    #[verifier::rlimit(40)]
    pub fn open_with_at(
        backend: B,
        budget: u64,
        root: PrefixKey,
        policies: Policies,
        now: u64,
    ) -> (r: Result<Cache<B>, CacheError>)
        requires
            backend.sound(),
        ensures
            match r {
                Ok(c) => {
                    &&& c.wf()
                    &&& c.store().stored_index() == backend.stored_index()
                    &&& c.view().agrees(c.store().objects())
                    &&& exists|o: Opening, index: Option<Seq<u8>>| #[trigger]
                        opened_as(backend, c, o, index, root@, policies, budget, now)
                },
                Err(e) => opening_fails(backend, root@, policies, budget, now, e),
            },
    {
        let mut store = backend;
        let ghost o0 = store.objects();
        let ghost i0 = store.stored_index();
        let ghost mut given: Option<Seq<u8>> = None;
        let stored = match store.get_index() {
            Ok(Some(b)) => {
                proof {
                    given = Some(b@);
                }
                read_index(b.as_slice(), &root)
            },
            Ok(None) => None,
            Err(e) => {
                assert(index_withheld(backend, e));
                None
            },
        };
        assert(index_given(backend, given));
        let loaded: bool = stored.is_some();
        let ghost lines = lines_of(stored);
        let lines_vec: Vec<Record> = match stored {
            Some(v) => v,
            None => Vec::new(),
        };
        assert(records_view(lines_vec@) =~= lines_or_none(lines));
        let ghost at = store;
        let listed = match store.list() {
            Ok(v) => v,
            Err(e) => {
                assert(listing_fails(at, e));
                return Err(CacheError::Backend(e));
            },
        };
        let ghost lv = metas(listed@);
        if listed.len() as u64 > LISTED_MAX {
            assert(lists(lv, o0) && lv.len() == listed@.len());
            return Err(CacheError::Backend(owned("more objects than memory holds")));
        }
        let mut mine: Vec<ObjectMeta> = Vec::new();
        let mut alien: Vec<String> = Vec::new();
        let n: usize = listed.len();
        let mut i: usize = 0;
        assert(metas(mine@) =~= own(lv.subrange(0, 0), root@));
        assert(texts(alien@) =~= foreign(lv.subrange(0, 0), root@));
        while i < n
            invariant
                i <= n,
                n == listed@.len(),
                lv == metas(listed@),
                mine@.len() <= i,
                metas(mine@) == own(lv.subrange(0, i as int), root@),
                texts(alien@) == foreign(lv.subrange(0, i as int), root@),
            decreases n - i,
        {
            assert(lv.subrange(0, i + 1).drop_last() =~= lv.subrange(0, i as int));
            assert(lv[i as int] == listed@[i as int]@);
            if listed[i].root == root {
                let c = listed[i].duplicate();
                proof {
                    lemma_metas_push(mine@, c);
                }
                mine.push(c);
            } else {
                push_name(&mut alien, listed[i].name());
            }
            i = i + 1;
        }
        assert(lv.subrange(0, n as int) =~= lv);
        proof {
            lemma_own(lv, root@);
        }
        let mut d: usize = 0;
        let ghost av = texts(alien@);
        assert(av.subrange(0, 0) =~= Seq::<Seq<char>>::empty());
        while d < alien.len()
            invariant
                d <= alien@.len(),
                av == texts(alien@),
                av == foreign(lv, root@),
                lists(lv, o0),
                o0 == backend.objects(),
                store.sound(),
                store.stored_index() == i0,
                store.objects() == removed(o0, av.subrange(0, d as int)),
            decreases alien@.len() - d,
        {
            let ghost at = store;
            let r = store.delete(alien[d].as_str());
            if let Err(e) = r {
                assert(deletion_fails(at, av[d as int], e));
                assert(lists(lv, o0));
                assert(stopped_at(
                    o0,
                    foreign(lv, root@),
                    d as int,
                    at,
                    CacheError::Backend(e),
                    at.objects(),
                ));
                return Err(CacheError::Backend(e));
            }
            assert(av.subrange(0, d + 1).drop_last() =~= av.subrange(0, d as int));
            d = d + 1;
        }
        assert(av.subrange(0, d as int) =~= av);
        assert(own(lv, root@).len() <= 0xff_ffff_ffff_ffff) by {
            assert(own(lv, root@) == metas(mine@));
            assert(metas(mine@).len() == mine@.len());
        }
        let mut entries = sort_by_age(mine, &lines_vec);
        let ghost sorted = metas(entries@);
        let ghost mv = own(lv, root@);
        take_up(&mut entries, &lines_vec);
        let ghost s0 = metas(entries@);
        proof {
            lemma_reordered_names(mv, sorted);
            lemma_taken_up_distinct(sorted, lines_or_none(lines));
            assert(s0.len() == sorted.len());
            assert(s0.len() == entries@.len());
        }
        let mut used: u128 = 0;
        let m: usize = entries.len();
        let mut j: usize = 0;
        assert(s0.subrange(0, 0) =~= Seq::<MetaView>::empty());
        while j < m
            invariant
                j <= m,
                m == entries@.len(),
                m <= 0xff_ffff_ffff_ffff,
                s0 == metas(entries@),
                used == total(s0.subrange(0, j as int)),
                used <= j * 0x20_0000_0000_0000_0000,
            decreases m - j,
        {
            proof {
                lemma_total_prefix(s0, j + 1);
            }
            used = used + entries[j].footprint_wide();
            j = j + 1;
        }
        assert(s0.subrange(0, m as int) =~= s0);
        let bytes: u64 = if used <= u64::MAX as u128 { used as u64 } else { u64::MAX };
        let report = OpenReport {
            objects: m,
            bytes,
            dropped_foreign: alien.len(),
            index_loaded: loaded,
        };
        let mut seqs: Vec<u64> = Vec::new();
        let mut next: usize = 0;
        while next < m
            invariant
                next <= m,
                m <= 0xff_ffff_ffff_ffff,
                seqs@ == first_seqs(next as nat),
            decreases m - next,
        {
            next = next + 1;
            seqs.push(next as u64);
            assert(seqs@ =~= first_seqs(next as nat));
        }
        let mut c = Cache {
            backend: store,
            root,
            entries,
            seqs,
            seq: m as u64,
            policies,
            used,
            budget,
            dirty: !loaded,
            pending_delete: Vec::new(),
            report,
            hits: 0,
            misses: 0,
            evicted: 0,
            expired: 0,
        };
        let ghost o = Opening { listed: lv, lines, sorted };
        assert(c.view() =~= o.start(root@, policies, budget));
        proof {
            c.lemma_sized();
            assert forall|i: int| 0 <= i < s0.len() implies (#[trigger] s0[i]).root == root@ by {
                assert(mv.contains(sorted[i]));
                let z = choose|z: int| 0 <= z < mv.len() && mv[z] == sorted[i];
                assert(mv[z].root == root@);
            }
            lemma_in_place_alive(s0, policies, now, Seq::empty(), root@);
        }
        let mut gone = c.drop_idle(now);
        let over = c.evict_to_budget();
        append_names(&mut gone, over);
        assert(texts(gone@) == o.gone(root@, policies, budget, now));
        let ghost o1 = c.store().objects();
        let done = c.delete_all(&gone);
        match done {
            Ok(_) => {
                proof {
                    assert(o.fits(o0, given, root@));
                    assert(opened_as(backend, c, o, given, root@, policies, budget, now));
                    lemma_open_agrees(o, o0, root@, policies, budget, now);
                }
                Ok(c)
            },
            Err(e) => {
                proof {
                    assert(o.fits(o0, given, root@));
                    let gn = o.gone(root@, policies, budget, now);
                    let (k, at) = choose|k: int, at: B| #[trigger]
                        stopped_at(o1, gn, k, at, e, c.store().objects());
                    assert(stopped_at(o1, gn, k, at, e, at.objects()));
                }
                Err(e)
            },
        }
    }
}

proof fn lemma_taken_up_distinct(sorted: Seq<MetaView>, lines: Seq<RecordView>)
    requires
        forall|a: int, b: int|
            0 <= a < b < sorted.len() ==> (#[trigger] sorted[a]).name() != (
            #[trigger] sorted[b]).name(),
    ensures
        distinct(taken_up(sorted, lines)),
{
    let s = taken_up(sorted, lines);
    assert forall|a: int, b: int| 0 <= a < b < s.len() implies !((#[trigger] s[a]).key == (
    #[trigger] s[b]).key && s[a].kind == s[b].kind) by {
        assert(sorted[a].name() != sorted[b].name());
    }
}

proof fn lemma_open_agrees(
    o: Opening,
    o0: Map<Seq<char>, Blob>,
    root: Seq<u8>,
    policies: Policies,
    budget: u64,
    now: u64,
)
    requires
        lists(o.listed, o0),
        sized(o.sorted),
        o.sorted.to_multiset() == own(o.listed, root).to_multiset(),
    ensures
        o.start(root, policies, budget).expire(now).evict().agrees(
            removed(
                removed(o0, foreign(o.listed, root)),
                o.gone(root, policies, budget, now),
            ),
        ),
{
    let lines = lines_or_none(o.lines);
    let mv = own(o.listed, root);
    let f = foreign(o.listed, root);
    lemma_own(o.listed, root);
    lemma_reordered_names(mv, o.sorted);
    lemma_taken_up_distinct(o.sorted, lines);
    let s = taken_up(o.sorted, lines);
    let t = alive(s, policies, now);
    let u = kept(t, policies, budget);
    let gone = o.gone(root, policies, budget, now);
    let o1 = removed(o0, f);
    lemma_alive(s, policies, now);
    assert(sized(s)) by {
        assert forall|i: int| 0 <= i < s.len() implies (#[trigger] s[i]).key.len() == 16 by {
            assert(o.sorted[i].key.len() == 16);
        }
    }
    assert(sized(t)) by {
        assert forall|i: int| 0 <= i < t.len() implies (#[trigger] t[i]).key.len() == 16 by {
            assert(s.contains(t[i]));
        }
    }
    let v = o.start(root, policies, budget).expire(now).evict();
    assert(v.entries == u);
    assert forall|k: int| #![trigger v.entries[k]] 0 <= k < v.entries.len() implies backed(
        v.entries[k],
        removed(o1, gone),
    ) by {
        let e = u[k];
        assert(u.contains(e));
        lemma_kept_from(t, policies, budget, e);
        lemma_kept_not_named(t, policies, budget, e);
        let j = choose|j: int| 0 <= j < t.len() && t[j] == e;
        assert(s.contains(t[j]) && !idle_out(policies, t[j], now));
        lemma_alive_not_named(s, policies, now, e);
        let q = choose|q: int| 0 <= q < s.len() && s[q] == e;
        let m = o.sorted[q];
        assert(mv.contains(m));
        let z = choose|z: int| 0 <= z < mv.len() && mv[z] == m;
        assert(o.listed.contains(mv[z]));
        let w = choose|w: int| 0 <= w < o.listed.len() && o.listed[w] == m;
        assert(o0.dom().contains(o.listed[w].name()) && o0[o.listed[w].name()].meta == o.listed[w]);
        assert(e.name() == m.name());
        assert(!f.contains(e.name())) by {
            if f.contains(e.name()) {
                let x = choose|x: int| 0 <= x < f.len() && f[x] == e.name();
                assert(mv[z].name() != f[x]);
            }
        }
        lemma_removed_keeps(o0, f, e.name());
        let b = idle_names(s, policies, now);
        let c = evicted_names(t, policies, budget);
        assert(!gone.contains(e.name())) by {
            if gone.contains(e.name()) {
                let x = choose|x: int| 0 <= x < gone.len() && gone[x] == e.name();
                if x < b.len() {
                    assert(b[x] == e.name());
                } else {
                    assert(c[x - b.len()] == e.name());
                }
            }
        }
        lemma_removed_keeps(o1, gone, e.name());
        assert(backed(e, o0));
    }
}

/// How many objects are of that kind.
pub open spec fn count_kind(s: Seq<MetaView>, kind: Kind) -> nat
    decreases s.len(),
{
    if s.len() == 0 {
        0
    } else {
        count_kind(s.drop_last(), kind) + if s.last().kind == kind { 1nat } else { 0nat }
    }
}

/// The earliest time of last use.
pub open spec fn oldest_use(s: Seq<MetaView>) -> Option<u64>
    decreases s.len(),
{
    if s.len() == 0 {
        None
    } else {
        match oldest_use(s.drop_last()) {
            Some(t) => if s.last().last_used < t { Some(s.last().last_used) } else { Some(t) },
            None => Some(s.last().last_used),
        }
    }
}

/// The latest time of last use.
pub open spec fn newest_use(s: Seq<MetaView>) -> Option<u64>
    decreases s.len(),
{
    if s.len() == 0 {
        None
    } else {
        match newest_use(s.drop_last()) {
            Some(t) => if s.last().last_used > t { Some(s.last().last_used) } else { Some(t) },
            None => Some(s.last().last_used),
        }
    }
}

/// The names of the objects, in order.
pub open spec fn names(s: Seq<MetaView>) -> Seq<Seq<char>> {
    Seq::new(s.len(), |i: int| s[i].name())
}

/// Where a deletion that may have failed unnoticed leads: the object is gone, or the backend, while
/// it held those objects, refused to delete it.
pub open spec fn dropped<B: Backend>(o0: Map<Seq<char>, Blob>, name: Seq<char>, b1: B) -> bool {
    ||| b1.objects() == o0.remove(name)
    ||| b1.objects() == o0 && exists|at: B, e: String|
        at.objects() == o0 && #[trigger] deletion_fails(at, name, e)
}

/// The index of a store without objects.
pub open spec fn empty_index(root: Seq<u8>) -> Seq<u8> {
    index_bytes(root, records_of(Seq::empty(), Seq::empty()))
}

/// What a read at `now` does: the state and the backend before and after it, and its result.
pub open spec fn get_outcome<B: Backend>(
    v0: CacheView,
    b0: B,
    key: Seq<u8>,
    kind: Kind,
    now: u64,
    r: Result<MetaView, CacheError>,
    body0: Seq<u8>,
    body1: Seq<u8>,
    v1: CacheView,
    b1: B,
) -> bool {
    let name = name_text(key, kind);
    let o0 = b0.objects();
    let o1 = b1.objects();
    if position(v0.entries, key, kind) is None {
        r == Err::<MetaView, CacheError>(CacheError::NotIndexed) && v1 == v0 && b1 == b0 && body1
            == body0
    } else {
        match r {
            Ok(m) => {
                &&& o0.dom().contains(name)
                &&& o0[name] == (Blob { meta: m, body: body1 })
                &&& v1 == v0.touch(key, kind, now)
                &&& o1 == o0
            },
            Err(e) => {
                &&& e matches CacheError::Backend(m) && read_fails(b0, name, body0.len(), m)
                &&& v1 == v0.remove(key, kind)
                &&& dropped(o0, name, b1)
            },
        }
    }
}

/// What is read back after a write is what was written: an object stored anew and not dropped
/// again at once is, for every read that succeeds, the metadata and the body of the write.
pub proof fn law_read_after_write<B: Backend>(
    v0: CacheView,
    b0: B,
    m: MetaView,
    body: Seq<u8>,
    t1: u64,
    v1: CacheView,
    b1: B,
    t2: u64,
    found: MetaView,
    buf0: Seq<u8>,
    buf1: Seq<u8>,
    v2: CacheView,
    b2: B,
)
    requires
        v0.sound(),
        m.key.len() == 16,
        v0.agrees(b0.objects()),
        position(v0.entries, m.key, m.kind) is None,
        put_outcome(v0, b0, m, body, t1, Ok(()), v1, b1),
        get_outcome(v1, b1, m.key, m.kind, t2, Ok(found), buf0, buf1, v2, b2),
    ensures
        found == m,
        buf1 == body,
{
    let o0 = b0.objects();
    let o1 = b1.objects();
    law_put_keeps_agreement(v0, b0, m, body, t1, v1, b1);
    lemma_position(v1.entries, m.key, m.kind);
    let i = position(v1.entries, m.key, m.kind)->0;
    let e = v1.entries[i];
    let stored = o0.insert(m.name(), Blob { meta: m, body });
    let gone = v0.insert_gone(m, t1);
    assert(backed(e, o1));
    assert(e.name() == m.name());
    if gone.contains(m.name()) {
        lemma_removed_drops(stored, gone, m.name());
    } else {
        lemma_removed_keeps(stored, gone, m.name());
    }
}

proof fn lemma_removed_drops(o: Map<Seq<char>, Blob>, names: Seq<Seq<char>>, n: Seq<char>)
    requires
        names.contains(n),
    ensures
        !removed(o, names).dom().contains(n),
    decreases names.len(),
{
    let h = names.drop_last();
    if names.last() != n {
        let i = choose|i: int| 0 <= i < names.len() && names[i] == n;
        assert(h[i] == n);
        lemma_removed_drops(o, h, n);
    }
}

/// A result by the views of what it holds.
pub open spec fn meta_result(r: Result<ObjectMeta, CacheError>) -> Result<MetaView, CacheError> {
    match r {
        Ok(m) => Ok(m@),
        Err(e) => Err(e),
    }
}

impl<B: Backend> Cache<B> {
    /// Read an object's body (`body.len()` must be its `bytes`) at `now`; marks it as used. An
    /// unreadable object is forgotten and deleted.
    pub fn get_at(&mut self, key: PrefixKey, kind: Kind, body: &mut [u8], now: u64) -> (r: Result<
        ObjectMeta,
        CacheError,
    >)
        requires
            old(self).wf(),
        ensures
            final(self).wf(),
            final(self).opened() == old(self).opened(),
            final(self).store().stored_index() == old(self).store().stored_index(),
            final(body)@.len() == old(body)@.len(),
            get_outcome(
                old(self).view(),
                old(self).store(),
                key@,
                kind,
                now,
                meta_result(r),
                old(body)@,
                final(body)@,
                final(self).view(),
                final(self).store(),
            ),
    {
        let ghost v = self.view();
        let name = object_name(&key, kind);
        let found = find_entry(&self.entries, &key, kind);
        if found.is_none() {
            return Err(CacheError::NotIndexed);
        }
        let ghost at = self.backend;
        let r = self.backend.get(name.as_str(), body);
        assert(r matches Err(e) ==> read_fails(at, name@, old(body)@.len(), e));
        assert(self.view() == v);
        match r {
            Ok(m) => {
                proof {
                    lemma_touched(v.entries, key@, kind, now);
                    lemma_in_place_touched(v.entries, key@, kind, now, v.pending, v.root);
                }
                self.touch_entry(&key, kind, now);
                Ok(m)
            },
            Err(e) => {
                let gone = self.forget(key, kind);
                let ghost v1 = self.view();
                if let Some(n) = gone {
                    proof {
                        lemma_position(v.entries, key@, kind);
                    }
                    let ghost at = self.backend;
                    let d = self.backend.delete(n.as_str());
                    assert(d matches Err(f) ==> deletion_fails(at, name@, f));
                }
                assert(self.view() == v1);
                Err(CacheError::Backend(e))
            },
        }
    }

    /// Drop an object from the index (the caller deletes it from the backend); its name.
    pub fn forget(&mut self, key: PrefixKey, kind: Kind) -> (r: Option<String>)
        requires
            old(self).wf(),
        ensures
            final(self).wf(),
            final(self).view() == old(self).view().remove(key@, kind),
            final(self).store() == old(self).store(),
            final(self).opened() == old(self).opened(),
            match lookup(old(self).view().entries, key@, kind) {
                Some(m) => r matches Some(s) && s@ == m.name(),
                None => r is None,
            },
    {
        proof {
            lemma_without(self.view().entries, key@, kind);
            lemma_in_place_without(
                self.view().entries,
                key@,
                kind,
                self.view().pending,
                self.view().root,
            );
        }
        match self.remove_entry(&key, kind) {
            Some(m) => Some(m.name()),
            None => None,
        }
    }

    /// Mark an object as used at `now`.
    pub fn touch_object_at(&mut self, key: PrefixKey, kind: Kind, now: u64)
        requires
            old(self).wf(),
        ensures
            final(self).wf(),
            final(self).view() == old(self).view().touch(key@, kind, now),
            final(self).store() == old(self).store(),
            final(self).opened() == old(self).opened(),
    {
        proof {
            lemma_touched(self.view().entries, key@, kind, now);
            lemma_in_place_touched(
                self.view().entries,
                key@,
                kind,
                now,
                self.view().pending,
                self.view().root,
            );
        }
        self.touch_entry(&key, kind, now);
    }

    /// Whether an object is indexed.
    pub fn has(&self, key: PrefixKey, kind: Kind) -> (r: bool)
        ensures
            r == position(self.view().entries, key@, kind) is Some,
    {
        find_entry(&self.entries, &key, kind).is_some()
    }

    /// The metadata of an indexed object.
    pub fn meta(&self, key: PrefixKey, kind: Kind) -> (r: Option<&ObjectMeta>)
        ensures
            match lookup(self.view().entries, key@, kind) {
                Some(m) => r matches Some(x) && x@ == m,
                None => r is None,
            },
    {
        match find_entry(&self.entries, &key, kind) {
            Some(i) => {
                assert(metas(self.entries@)[i as int] == self.entries@[i as int]@);
                Some(&self.entries[i])
            },
            None => None,
        }
    }

    pub fn policies(&self) -> (p: &Policies)
        ensures
            *p == self.view().policies,
    {
        &self.policies
    }

    pub fn root(&self) -> (k: PrefixKey)
        ensures
            k@ == self.view().root,
    {
        self.root
    }

    pub fn budget(&self) -> (b: u64)
        ensures
            b == self.view().budget,
    {
        self.budget
    }

    /// What `open` found.
    pub fn open_report(&self) -> (r: &OpenReport)
        ensures
            *r == self.opened(),
    {
        &self.report
    }

    /// The backend, for I/O beside the index (see `insert` and `forget`).
    pub fn backend(&mut self) -> (b: &mut B)
        requires
            old(self).wf(),
        ensures
            *b == old(self).store(),
            b.sound(),
            final(self).store() == *final(b),
            final(self).view() == old(self).view(),
            final(self).opened() == old(self).opened(),
            final(b).sound() ==> final(self).wf(),
    {
        &mut self.backend
    }

    /// Where the data lives.
    pub fn describe(&self) -> (s: String)
        ensures
            s@ == self.store().place(),
    {
        self.backend.describe()
    }

    /// The counters and totals of the store.
    pub fn stats(&self) -> (s: Stats)
        requires
            self.wf(),
        ensures
            s == self.view().stats(),
    {
        let ghost s = metas(self.entries@);
        let n: usize = self.entries.len();
        let mut rows: usize = 0;
        let mut snapshots: usize = 0;
        let mut oldest: Option<u64> = None;
        let mut newest: Option<u64> = None;
        let mut i: usize = 0;
        assert(s.subrange(0, 0) =~= Seq::<MetaView>::empty());
        while i < n
            invariant
                i <= n,
                n == self.entries@.len(),
                s == metas(self.entries@),
                rows == count_kind(s.subrange(0, i as int), Kind::Rows),
                snapshots == count_kind(s.subrange(0, i as int), Kind::Snapshot),
                rows + snapshots == i,
                oldest == oldest_use(s.subrange(0, i as int)),
                newest == newest_use(s.subrange(0, i as int)),
            decreases n - i,
        {
            assert(s.subrange(0, i + 1).drop_last() =~= s.subrange(0, i as int));
            assert(s.subrange(0, i + 1).last() == self.entries@[i as int]@);
            let t: u64 = self.entries[i].last_used;
            match self.entries[i].kind {
                Kind::Rows => {
                    rows = rows + 1;
                },
                Kind::Snapshot => {
                    snapshots = snapshots + 1;
                },
            }
            oldest = match oldest {
                Some(o) => if t < o { Some(t) } else { Some(o) },
                None => Some(t),
            };
            newest = match newest {
                Some(o) => if t > o { Some(t) } else { Some(o) },
                None => Some(t),
            };
            i = i + 1;
        }
        assert(s.subrange(0, n as int) =~= s);
        Stats {
            objects: n,
            rows,
            snapshots,
            bytes: self.used as u64,
            budget: self.budget,
            oldest,
            newest,
            hits: self.hits,
            misses: self.misses,
            evicted: self.evicted,
            expired: self.expired,
        }
    }

    /// The objects in the order in which they would be evicted: by tier, then by last use.
    pub fn eviction_order(&self) -> (r: Vec<(PrefixKey, Kind)>)
        ensures
            r@.len() == eviction_list(self.view().entries, self.view().policies, 10).len(),
            forall|i: int|
                0 <= i < r@.len() ==> is_at(
                    #[trigger] eviction_list(self.view().entries, self.view().policies, 10)[i],
                    r@[i].0@,
                    r@[i].1,
                ),
    {
        let ghost s = metas(self.entries@);
        let ghost p = self.policies;
        let mut out: Vec<(PrefixKey, Kind)> = Vec::new();
        let mut t: u8 = 0;
        while t < 10
            invariant
                t <= 10,
                s == metas(self.entries@),
                p == self.policies,
                out@.len() == eviction_list(s, p, t as int).len(),
                forall|i: int|
                    0 <= i < out@.len() ==> is_at(
                        #[trigger] eviction_list(s, p, t as int)[i],
                        out@[i].0@,
                        out@[i].1,
                    ),
            decreases 10 - t,
        {
            let ghost base = eviction_list(s, p, t as int);
            let n: usize = self.entries.len();
            let mut i: usize = 0;
            assert(base + of_tier(s.subrange(0, 0), p, t) =~= base);
            while i < n
                invariant
                    i <= n,
                    n == self.entries@.len(),
                    s == metas(self.entries@),
                    p == self.policies,
                    out@.len() == (base + of_tier(s.subrange(0, i as int), p, t)).len(),
                    forall|k: int|
                        0 <= k < out@.len() ==> is_at(
                            #[trigger] (base + of_tier(s.subrange(0, i as int), p, t))[k],
                            out@[k].0@,
                            out@[k].1,
                        ),
                decreases n - i,
            {
                let ghost pre = base + of_tier(s.subrange(0, i as int), p, t);
                let ghost post = base + of_tier(s.subrange(0, i + 1), p, t);
                assert(s.subrange(0, i + 1).drop_last() =~= s.subrange(0, i as int));
                assert(s.subrange(0, i + 1).last() == self.entries@[i as int]@);
                if self.tier_of(&self.entries[i]) == t {
                    out.push((self.entries[i].key, self.entries[i].kind));
                    assert(post =~= pre.push(s[i as int]));
                }
                i = i + 1;
            }
            assert(s.subrange(0, n as int) =~= s);
            t = t + 1;
        }
        out
    }

    /// Persist the index (LRU order and hit times) if anything changed.
    pub fn flush(&mut self) -> (r: Result<(), CacheError>)
        requires
            old(self).wf(),
        ensures
            final(self).wf(),
            final(self).opened() == old(self).opened(),
            final(self).store().objects() == old(self).store().objects(),
            !old(self).view().dirty ==> r is Ok && final(self).view() == old(self).view() && final(self).store() == old(self).store(),
            old(self).view().dirty ==> match r {
                Ok(_) => final(self).view() == (CacheView { dirty: false, ..old(self).view() })
                    && final(self).store().stored_index() == Some(
                    index_bytes(old(self).view().root, records_of(old(self).view().entries, old(self).view().seqs)),
                ),
                Err(e) => {
                    &&& e matches CacheError::Backend(m) && index_fails(
                        old(self).store(),
                        index_bytes(
                            old(self).view().root,
                            records_of(old(self).view().entries, old(self).view().seqs),
                        ),
                        m,
                    )
                    &&& final(self).view() == old(self).view()
                    &&& final(self).store().stored_index() == old(self).store().stored_index()
                },
            },
    {
        if !self.dirty {
            return Ok(());
        }
        let ghost s = metas(self.entries@);
        let ghost q = self.seqs@;
        let mut lines: Vec<Record> = Vec::new();
        let n: usize = self.entries.len();
        let mut i: usize = 0;
        while i < n
            invariant
                i <= n,
                n == self.entries@.len(),
                s == metas(self.entries@),
                q == self.seqs@,
                q.len() == n,
                lines@.len() == i,
                forall|k: int| 0 <= k < i ==> (#[trigger] lines@[k])@ == records_of(s, q)[k],
            decreases n - i,
        {
            lines.push(
                Record {
                    name: self.entries[i].name(),
                    last_used: self.entries[i].last_used,
                    seq: self.seqs[i],
                },
            );
            assert(lines@[i as int]@ =~= records_of(s, q)[i as int]);
            i = i + 1;
        }
        assert(records_view(lines@) =~= records_of(s, q));
        let text = write_index(&self.root, &lines);
        let ghost at = self.backend;
        let r = self.backend.put_index(text.as_str().as_bytes());
        assert(r matches Err(e) ==> index_fails(at, index_bytes(self.root@, records_of(s, q)), e));
        match r {
            Ok(_) => {
                self.dirty = false;
                assert(self.view() =~= (CacheView { dirty: false, ..old(self).view() }));
                Ok(())
            },
            Err(e) => Err(CacheError::Backend(e)),
        }
    }

    /// The names of all objects, in order.
    fn all_names(&self) -> (all: Vec<String>)
        ensures
            texts(all@) == names(self.view().entries),
    {
        let n: usize = self.entries.len();
        let mut all: Vec<String> = Vec::new();
        let mut i: usize = 0;
        while i < n
            invariant
                i <= n,
                n == self.entries@.len(),
                all@.len() == i,
                forall|k: int| 0 <= k < i ==> (#[trigger] all@[k])@ == metas(self.entries@)[k].name(),
            decreases n - i,
        {
            all.push(self.entries[i].name());
            i = i + 1;
        }
        assert(texts(all@) =~= names(self.view().entries));
        all
    }

    /// Drop every object from the index.
    fn empty(&mut self)
        requires
            old(self).wf(),
        ensures
            final(self).wf(),
            final(self).view() == old(self).view().emptied(),
            final(self).store() == old(self).store(),
            final(self).opened() == old(self).opened(),
    {
        if self.entries.len() > 0 {
            self.dirty = true;
        }
        self.entries = Vec::new();
        self.seqs = Vec::new();
        self.used = 0;
        assert(metas(self.entries@) =~= Seq::<MetaView>::empty());
        assert(self.view() =~= old(self).view().emptied());
    }

    /// Delete every object, those that wait to be deleted first.
    #[verifier::spinoff_prover]
    pub fn clear(&mut self) -> (r: Result<(), CacheError>)
        requires
            old(self).wf(),
        ensures
            final(self).wf(),
            final(self).opened() == old(self).opened(),
            final(self).view() == (CacheView {
                pending: Seq::empty(),
                dirty: r is Err && old(self).view().emptied().dirty,
                ..old(self).view().emptied()
            }),
            match r {
                Ok(_) => {
                    &&& final(self).store().objects() == removed(
                        old(self).store().objects(),
                        old(self).view().pending + names(old(self).view().entries),
                    )
                    &&& final(self).store().stored_index() == if old(
                        self,
                    ).view().emptied().dirty {
                        Some(empty_index(old(self).view().root))
                    } else {
                        old(self).store().stored_index()
                    }
                },
                Err(e) => {
                    let all = old(self).view().pending + names(old(self).view().entries);
                    ||| deletion_outcome(old(self).store().objects(), all, r, final(self).store())
                    ||| final(self).store().objects() == removed(old(self).store().objects(), all)
                        && exists|at: B, m: String|
                        at.objects() == final(self).store().objects() && #[trigger] index_fails(
                            at,
                            empty_index(old(self).view().root),
                            m,
                        ) && e == CacheError::Backend(m)
                },
            },
    {
        let all: Vec<String> = self.all_names();
        self.empty();
        let mut gone: Vec<String> = self.take_pending();
        append_names(&mut gone, all);
        assert(texts(gone@) == old(self).view().pending + names(old(self).view().entries));
        let ghost v = self.view();
        let d = self.delete_all(&gone);
        assert(self.view() == v);
        match d {
            Ok(_) => {
                let ghost at = self.store();
                let f = self.flush();
                assert(f matches Err(CacheError::Backend(m)) ==> index_fails(at, empty_index(v.root), m));
                f
            },
            Err(e) => Err(e),
        }
    }

    /// `open_with_at` with the current time.
    pub fn open_with(backend: B, budget: u64, root: PrefixKey, policies: Policies) -> (r: Result<
        Cache<B>,
        CacheError,
    >)
        requires
            backend.sound(),
        ensures
            match r {
                Ok(c) => {
                    &&& c.wf()
                    &&& c.store().stored_index() == backend.stored_index()
                    &&& c.view().agrees(c.store().objects())
                    &&& exists|o: Opening, index: Option<Seq<u8>>, now: u64| #[trigger]
                        opened_as(backend, c, o, index, root@, policies, budget, now)
                },
                Err(e) => exists|now: u64| #[trigger]
                    opening_fails(backend, root@, policies, budget, now, e),
            },
    {
        let t: u64 = now();
        Self::open_with_at(backend, budget, root, policies, t)
    }

    /// `open_with` and the default policies.
    pub fn open(backend: B, budget: u64, root: PrefixKey) -> (r: Result<Cache<B>, CacheError>)
        requires
            backend.sound(),
        ensures
            match r {
                Ok(c) => {
                    &&& c.wf()
                    &&& c.store().stored_index() == backend.stored_index()
                    &&& c.view().agrees(c.store().objects())
                    &&& forall|role: crate::role::Role| #[trigger]
                        c.view().policies.policy(role) == crate::policy::default_policy()
                    &&& exists|o: Opening, index: Option<Seq<u8>>, now: u64| #[trigger]
                        opened_as(backend, c, o, index, root@, c.view().policies, budget, now)
                },
                Err(e) => exists|policies: Policies, now: u64|
                    {
                        &&& #[trigger] opening_fails(backend, root@, policies, budget, now, e)
                        &&& forall|role: crate::role::Role| #[trigger]
                            policies.policy(role) == crate::policy::default_policy()
                    },
            },
    {
        Self::open_with(backend, budget, root, Policies::default())
    }

    /// `expire_idle_at` with the current time.
    pub fn expire_idle(&mut self) -> (gone: Vec<String>)
        requires
            old(self).wf(),
        ensures
            final(self).wf(),
            final(self).store() == old(self).store(),
            final(self).opened() == old(self).opened(),
            exists|t: u64|
                final(self).view() == #[trigger] old(self).view().expire(t) && texts(gone@)
                    == idle_names(old(self).view().entries, old(self).view().policies, t),
    {
        let t: u64 = now();
        self.expire_idle_at(t)
    }

    /// `best_restore_at` with the current time.
    pub fn best_restore(&mut self, keys: &[PrefixKey]) -> (r: Option<RestorePlan>)
        requires
            old(self).wf(),
        ensures
            final(self).wf(),
            final(self).store() == old(self).store(),
            final(self).opened() == old(self).opened(),
            exists|t: u64|
                final(self).view() == #[trigger] old(self).view().best_restore(key_views(keys@), t) && ({
                    let s = old(self).view().expire(t).entries;
                    let k = key_views(keys@);
                    match deepest(s, k, k.len() - 1) {
                        Some(p) => r matches Some(plan) && plan_for(plan, s, k, p),
                        None => r is None,
                    }
                }),
    {
        let t: u64 = now();
        self.best_restore_at(keys, t)
    }

    /// `put_at` with the current time.
    pub fn put(&mut self, meta: ObjectMeta, body: &[u8]) -> (r: Result<(), CacheError>)
        requires
            old(self).wf(),
        ensures
            final(self).wf(),
            final(self).opened() == old(self).opened(),
            final(self).store().stored_index() == old(self).store().stored_index(),
            exists|t: u64| #[trigger]
                put_outcome(
                    old(self).view(),
                    old(self).store(),
                    meta@,
                    body@,
                    t,
                    r,
                    final(self).view(),
                    final(self).store(),
                ),
    {
        let t: u64 = now();
        self.put_at(meta, body, t)
    }

    /// `insert_at` with the current time.
    pub fn insert(&mut self, meta: ObjectMeta) -> (r: Result<Vec<String>, CacheError>)
        requires
            old(self).wf(),
        ensures
            final(self).wf(),
            final(self).store() == old(self).store(),
            final(self).opened() == old(self).opened(),
            r matches Ok(gone) ==> apart(final(self).view().entries, texts(gone@)),
            ({
                let v = old(self).view();
                let m = meta@;
                if position(v.entries, m.key, m.kind) is Some {
                    &&& r matches Ok(gone)
                    &&& texts(gone@) == v.pending
                    &&& exists|t: u64|
                        final(self).view() == (CacheView {
                            pending: Seq::empty(),
                            ..#[trigger] v.touch(m.key, m.kind, t)
                        })
                } else if let Some(e) = v.refusal(m) {
                    r == Err::<Vec<String>, CacheError>(e) && final(self).view() == v
                } else {
                    &&& r matches Ok(gone)
                    &&& exists|t: u64|
                        texts(gone@) == v.insert_gone(m, t) && final(self).view() == #[trigger] v.insert(
                            m,
                            t,
                        )
                }
            }),
    {
        let t: u64 = now();
        self.insert_at(meta, t)
    }

    /// `get_at` with the current time.
    pub fn get(&mut self, key: PrefixKey, kind: Kind, body: &mut [u8]) -> (r: Result<
        ObjectMeta,
        CacheError,
    >)
        requires
            old(self).wf(),
        ensures
            final(self).wf(),
            final(self).opened() == old(self).opened(),
            final(self).store().stored_index() == old(self).store().stored_index(),
            final(body)@.len() == old(body)@.len(),
            exists|t: u64| #[trigger]
                get_outcome(
                    old(self).view(),
                    old(self).store(),
                    key@,
                    kind,
                    t,
                    meta_result(r),
                    old(body)@,
                    final(body)@,
                    final(self).view(),
                    final(self).store(),
                ),
    {
        let t: u64 = now();
        self.get_at(key, kind, body, t)
    }

    /// Mark an object as just used.
    pub fn touch_object(&mut self, key: PrefixKey, kind: Kind)
        requires
            old(self).wf(),
        ensures
            final(self).wf(),
            final(self).store() == old(self).store(),
            final(self).opened() == old(self).opened(),
            exists|t: u64| final(self).view() == #[trigger] old(self).view().touch(key@, kind, t),
    {
        let t: u64 = now();
        self.touch_object_at(key, kind, t);
    }
}

/// The objects of one tier, least recently used first.
pub open spec fn of_tier(s: Seq<MetaView>, p: Policies, t: u8) -> Seq<MetaView>
    decreases s.len(),
{
    if s.len() == 0 {
        Seq::empty()
    } else if tier(p, s.last()) == t {
        of_tier(s.drop_last(), p, t).push(s.last())
    } else {
        of_tier(s.drop_last(), p, t)
    }
}

/// The objects of the tiers below `n`, tier by tier.
pub open spec fn eviction_list(s: Seq<MetaView>, p: Policies, n: int) -> Seq<MetaView>
    decreases n,
{
    if n <= 0 {
        Seq::empty()
    } else {
        eviction_list(s, p, n - 1) + of_tier(s, p, (n - 1) as u8)
    }
}

proof fn lemma_total_prefix(s: Seq<MetaView>, n: int)
    requires
        0 < n <= s.len(),
    ensures
        total(s.subrange(0, n)) == total(s.subrange(0, n - 1)) + s[n - 1].footprint(),
        total(s.subrange(0, n)) <= total(s),
    decreases s.len() - n,
{
    assert(s.subrange(0, n).drop_last() =~= s.subrange(0, n - 1));
    if n < s.len() {
        lemma_total_prefix(s, n + 1);
    } else {
        assert(s.subrange(0, n) =~= s);
    }
}

} // verus!
