//! The persistent prefix cache as the engine sees it: where to snapshot during prefill, what to
//! store after a request, and which stored prefix of a prompt to restore before it.
use crate::backend::{deletion_fails, read_fails, write_answers, write_taken, Backend, Blob};
use crate::cache::{Cache, CacheError, CacheView, OpenReport, Opening, RestorePlan, Stats};
use crate::cache::{dropped, key_views, opened_as, opening_fails, plan_for, write_outcome};
use crate::key::{prefix_keys, root_key, ImageRow, PrefixKey};
use crate::key::{chain_key, folded_image, key_of, law_prefix_shares_keys, material_bytes};
use crate::object::{object_name, Kind, ObjectMeta};
use crate::object::{name_text, MetaView, FORMAT};
use crate::policy::Policies;
use crate::restore::{chain, deepest, restorable, snapshot_at};
use crate::role::{chunk_spans, Role, Span};
use crate::role::chunks;
use crate::engine::points_in_order;
use crate::shelf::{lookup, position};
use crate::text::{decimal, owned, push_decimal, push_text, str_eq, texts};
use vstd::prelude::*;
use vstd::slice::slice_subrange;

verus! {

/// When snapshots are taken.
#[derive(Clone, Copy, Debug, PartialEq, Eq, Structural)]
pub enum SnapshotPolicy {
    /// At the end of every prompt span of at least the configured length, and of each request.
    Message,
    /// At the end of each request only.
    Request,
}

impl SnapshotPolicy {
    pub open spec fn text(self) -> Seq<char> {
        match self {
            SnapshotPolicy::Message => "message"@,
            SnapshotPolicy::Request => "request"@,
        }
    }

    /// The policy of that name; none for any other text.
    pub fn parse(s: &str) -> (r: Option<SnapshotPolicy>)
        ensures
            match r {
                Some(p) => s@ == p.text(),
                None => forall|p: SnapshotPolicy| s@ != #[trigger] p.text(),
            },
    {
        if str_eq(s, "message") {
            Some(SnapshotPolicy::Message)
        } else if str_eq(s, "request") {
            Some(SnapshotPolicy::Request)
        } else {
            None
        }
    }
}

/// What is stored of a conversation, and where snapshots are taken.
#[derive(Clone, Copy, Debug, PartialEq, Eq, Structural)]
pub struct Rules {
    pub chunk_len: usize,
    pub policy: SnapshotPolicy,
    pub min_tokens: usize,
    pub roles: Policies,
}

/// The first position, among the first `n` spans, from which nothing is stored: the start of the
/// first span whose role is not persisted.
pub open spec fn first_unstored(roles: Policies, spans: Seq<Span>, n: int) -> int
    decreases n,
{
    if n <= 0 {
        usize::MAX as int
    } else {
        let rest = first_unstored(roles, spans, n - 1);
        let s = spans[n - 1];
        if !roles.policy(s.role).persist && s.start < rest { s.start as int } else { rest }
    }
}

/// The snapshot points with one more, in order of position; a position that is there stays.
pub open spec fn with_point(v: Seq<(usize, Role)>, end: usize, role: Role) -> Seq<(usize, Role)>
    decreases v.len(),
{
    if v.len() == 0 || v.last().0 < end {
        v.push((end, role))
    } else if v.last().0 == end {
        v
    } else {
        with_point(v.drop_last(), end, role).push(v.last())
    }
}

/// Of the first `n` chunks, those that end by `cap`.
pub open spec fn ended(v: Seq<Span>, cap: int, n: int) -> Seq<Span>
    decreases n,
{
    if n <= 0 {
        Seq::empty()
    } else if v[n - 1].end <= cap {
        ended(v, cap, n - 1).push(v[n - 1])
    } else {
        ended(v, cap, n - 1)
    }
}

/// The role of the last of the first `k` spans that starts before `n`.
pub open spec fn last_role(spans: Seq<Span>, n: int, k: int) -> Option<Role>
    decreases k,
{
    if k <= 0 {
        None
    } else if spans[k - 1].start < n {
        Some(spans[k - 1].role)
    } else {
        last_role(spans, n, k - 1)
    }
}

impl Rules {
    pub open spec fn cut(self, spans: Seq<Span>) -> int {
        first_unstored(self.roles, spans, spans.len() as int)
    }

    /// Whether a snapshot is taken at the end of a span: it is long enough, ends in
    /// `(from, len]` and before anything that is not stored, and its role takes snapshots.
    pub open spec fn snapshots(self, s: Span, from: int, len: int, cut: int) -> bool {
        &&& s.end - s.start >= self.min_tokens
        &&& from < s.end <= len
        &&& s.end <= cut
        &&& self.roles.policy(s.role).snapshot
    }

    /// The snapshot points of the first `n` spans.
    pub open spec fn points(self, spans: Seq<Span>, from: int, len: int, cut: int, n: int) -> Seq<
        (usize, Role),
    >
        decreases n,
    {
        if n <= 0 {
            Seq::empty()
        } else {
            let rest = self.points(spans, from, len, cut, n - 1);
            let s = spans[n - 1];
            if self.snapshots(s, from, len, cut) { with_point(rest, s.end, s.role) } else { rest }
        }
    }

    /// The rows chunks of `n` positions that are stored.
    pub open spec fn stored_chunks(self, spans: Seq<Span>, n: int) -> Seq<Span> {
        let all = chunks(spans, 0, self.chunk_len as int);
        let cut = self.cut(spans);
        ended(all, if n < cut { n } else { cut }, all.len() as int)
    }

    /// The first position from which nothing is stored (chunks and snapshots beyond it would be
    /// unreachable); `usize::MAX` where every role is persisted.
    pub fn persist_cut(&self, spans: &[Span]) -> (r: usize)
        ensures
            r == self.cut(spans@),
    {
        let mut r: usize = usize::MAX;
        let n: usize = spans.len();
        let mut i: usize = 0;
        while i < n
            invariant
                i <= n,
                n == spans@.len(),
                r == first_unstored(self.roles, spans@, i as int),
            decreases n - i,
        {
            let s = spans[i];
            if !self.roles.get(s.role).persist && s.start < r {
                r = s.start;
            }
            i = i + 1;
        }
        r
    }

    /// Prompt positions where prefill should stop and snapshot: span ends in `(from, len]` of
    /// spans long enough whose role takes snapshots, under the `message` policy, and not beyond
    /// the first span that is not persisted (nothing after it is restorable).
    pub fn snapshot_points(&self, spans: &[Span], from: usize, len: usize) -> (v: Vec<(usize, Role)>)
        requires
            forall|i: int| 0 <= i < spans@.len() ==> (#[trigger] spans@[i]).start <= spans@[i].end,
        ensures
            v@ == if self.policy == SnapshotPolicy::Message {
                self.points(spans@, from as int, len as int, self.cut(spans@), spans@.len() as int)
            } else {
                Seq::empty()
            },
            points_in_order(v@),
    {
        let mut v: Vec<(usize, Role)> = Vec::new();
        if self.policy != SnapshotPolicy::Message {
            return v;
        }
        let cut: usize = self.persist_cut(spans);
        let n: usize = spans.len();
        let mut i: usize = 0;
        while i < n
            invariant
                i <= n,
                n == spans@.len(),
                forall|j: int| 0 <= j < spans@.len() ==> (#[trigger] spans@[j]).start <= spans@[j].end,
                v@ == self.points(spans@, from as int, len as int, cut as int, i as int),
                points_in_order(v@),
            decreases n - i,
        {
            let s = spans[i];
            if s.len() >= self.min_tokens && s.end > from && s.end <= len && s.end <= cut
                && self.roles.get(s.role).snapshot {
                insert_point(&mut v, s.end, s.role);
            }
            i = i + 1;
        }
        v
    }

    /// The rows chunks of the first `n` positions that are stored.
    pub fn chunks_to_store(&self, spans: &[Span], n: usize) -> (out: Vec<Span>)
        ensures
            out@ == self.stored_chunks(spans@, n as int),
    {
        let cut: usize = self.persist_cut(spans);
        let cap: usize = if n < cut { n } else { cut };
        let all: Vec<Span> = chunk_spans(spans, 0, self.chunk_len);
        let mut out: Vec<Span> = Vec::new();
        let m: usize = all.len();
        let mut i: usize = 0;
        while i < m
            invariant
                i <= m,
                m == all@.len(),
                out@ == ended(all@, cap as int, i as int),
            decreases m - i,
        {
            if all[i].end <= cap {
                out.push(all[i]);
            }
            i = i + 1;
        }
        out
    }
}

proof fn lemma_with_point(v: Seq<(usize, Role)>, end: usize, role: Role)
    requires
        points_in_order(v),
    ensures
        points_in_order(with_point(v, end, role)),
        with_point(v, end, role).len() > 0,
        forall|i: int|
            0 <= i < with_point(v, end, role).len() ==> (#[trigger] with_point(v, end, role)[i]).0
                <= if v.len() > 0 && v.last().0 > end { v.last().0 } else { end },
        forall|p: int|
            #![trigger has_point(with_point(v, end, role), p)]
            has_point(with_point(v, end, role), p) <==> has_point(v, p) || p == end,
    decreases v.len(),
{
    let w = with_point(v, end, role);
    if v.len() == 0 || v.last().0 < end {
        assert(w[w.len() - 1].0 == end);
        assert forall|p: int| #![trigger has_point(w, p)] has_point(w, p) <==> has_point(v, p) || p == end by {
            if has_point(v, p) {
                let i = choose|i: int| 0 <= i < v.len() && (#[trigger] v[i]).0 == p;
                assert(w[i].0 == p);
            }
            if has_point(w, p) {
                let i = choose|i: int| 0 <= i < w.len() && (#[trigger] w[i]).0 == p;
                if i < v.len() {
                    assert(v[i].0 == p);
                }
            }
        }
    } else if v.last().0 == end {
        assert(v[v.len() - 1].0 == end);
    } else {
        let d = v.drop_last();
        lemma_with_point(d, end, role);
        let x = with_point(d, end, role);
        assert forall|i: int, j: int| 0 <= i < j < w.len() implies (#[trigger] w[i]).0 < (#[trigger] w[j]).0 by {
            if j < x.len() {
                assert(x[i].0 < x[j].0);
            } else {
                assert(x[i].0 <= if d.len() > 0 && d.last().0 > end { d.last().0 } else { end });
                if d.len() > 0 {
                    assert(v[d.len() - 1].0 < v[v.len() - 1].0);
                }
            }
        }
        assert forall|p: int| #![trigger has_point(w, p)] has_point(w, p) <==> has_point(v, p) || p == end by {
            assert(has_point(x, p) <==> has_point(d, p) || p == end);
            if has_point(v, p) {
                let i = choose|i: int| 0 <= i < v.len() && (#[trigger] v[i]).0 == p;
                if i < d.len() {
                    assert(d[i].0 == p);
                    let j = choose|j: int| 0 <= j < x.len() && (#[trigger] x[j]).0 == p;
                    assert(w[j].0 == p);
                } else {
                    assert(w[w.len() - 1].0 == p);
                }
            }
            if p == end {
                let j = choose|j: int| 0 <= j < x.len() && (#[trigger] x[j]).0 == p;
                assert(w[j].0 == p);
            }
            if has_point(w, p) {
                let i = choose|i: int| 0 <= i < w.len() && (#[trigger] w[i]).0 == p;
                if i < x.len() {
                    assert(x[i].0 == p);
                    if p != end {
                        let j = choose|j: int| 0 <= j < d.len() && (#[trigger] d[j]).0 == p;
                        assert(v[j].0 == p);
                    }
                } else {
                    assert(v[v.len() - 1].0 == p);
                }
            }
        }
    }
}

/// Whether there is a snapshot point at `p`.
pub open spec fn has_point(v: Seq<(usize, Role)>, p: int) -> bool {
    exists|i: int| 0 <= i < v.len() && (#[trigger] v[i]).0 == p
}

fn insert_point(v: &mut Vec<(usize, Role)>, end: usize, role: Role)
    requires
        points_in_order(old(v)@),
    ensures
        final(v)@ == with_point(old(v)@, end, role),
        points_in_order(final(v)@),
{
    proof {
        lemma_with_point(v@, end, role);
    }
    let n: usize = v.len();
    let mut i: usize = n;
    assert(v@.take(n as int) =~= v@);
    assert(v@.skip(n as int) =~= Seq::<(usize, Role)>::empty());
    assert(with_point(v@, end, role) =~= with_point(v@.take(n as int), end, role) + v@.skip(n as int));
    while i > 0 && v[i - 1].0 > end
        invariant
            i <= n,
            n == v@.len(),
            *v == *old(v),
            with_point(v@, end, role) == with_point(v@.take(i as int), end, role) + v@.skip(i as int),
        decreases i,
    {
        assert(v@.take(i as int).drop_last() =~= v@.take(i - 1));
        assert(with_point(v@.take(i as int), end, role) + v@.skip(i as int) =~= with_point(
            v@.take(i - 1),
            end,
            role,
        ) + v@.skip(i - 1));
        i = i - 1;
    }
    if i > 0 && v[i - 1].0 == end {
        assert(with_point(v@.take(i as int), end, role) == v@.take(i as int));
        assert(v@.take(i as int) + v@.skip(i as int) =~= v@);
        return;
    }
    v.insert(i, (end, role));
    assert(v@ =~= old(v)@.take(i as int).push((end, role)) + old(v)@.skip(i as int));
}

/// The snapshot points come in order, each position once, and are exactly the ends of the spans
/// that call for a snapshot.
pub proof fn law_snapshot_points(r: Rules, spans: Seq<Span>, from: int, len: int, cut: int, n: int)
    requires
        0 <= n <= spans.len(),
    ensures
        points_in_order(r.points(spans, from, len, cut, n)),
        forall|p: int|
            #![trigger has_point(r.points(spans, from, len, cut, n), p)]
            has_point(r.points(spans, from, len, cut, n), p) <==> exists|i: int|
                0 <= i < n && (#[trigger] spans[i]).end == p && r.snapshots(spans[i], from, len, cut),
    decreases n,
{
    if n > 0 {
        law_snapshot_points(r, spans, from, len, cut, n - 1);
        let rest = r.points(spans, from, len, cut, n - 1);
        let all = r.points(spans, from, len, cut, n);
        let s = spans[n - 1];
        lemma_with_point(rest, s.end, s.role);
        assert forall|p: int| #![trigger has_point(all, p)] has_point(all, p) <==> exists|i: int|
            0 <= i < n && (#[trigger] spans[i]).end == p && r.snapshots(spans[i], from, len, cut) by {
            assert(has_point(rest, p) <==> exists|i: int|
                0 <= i < n - 1 && (#[trigger] spans[i]).end == p && r.snapshots(spans[i], from, len, cut));
            if r.snapshots(s, from, len, cut) {
                assert(has_point(with_point(rest, s.end, s.role), p) <==> has_point(rest, p) || p == s.end);
            }
            if has_point(all, p) {
                if has_point(rest, p) {
                    let i = choose|i: int|
                        0 <= i < n - 1 && (#[trigger] spans[i]).end == p && r.snapshots(
                            spans[i],
                            from,
                            len,
                            cut,
                        );
                    assert(spans[i].end == p);
                } else {
                    assert(spans[n - 1].end == p);
                }
            }
        }
    }
}

// ---- keys -----------------------------------------------------------------------------------

/// Continue a chain of keys over generated tokens.
pub fn extend_keys(keys: &mut Vec<PrefixKey>, toks: &[u32])
    requires
        old(keys)@.len() > 0,
    ensures
        final(keys)@.len() == old(keys)@.len() + toks@.len(),
        forall|i: int| 0 <= i < old(keys)@.len() ==> (#[trigger] final(keys)@[i]) == old(keys)@[i],
        forall|i: int|
            0 <= i <= toks@.len() ==> (#[trigger] final(keys)@[old(keys)@.len() - 1 + i])@ == chain_key(
                old(keys)@.last()@,
                toks@,
                Seq::empty(),
                i,
            ),
{
    let n: usize = keys.len();
    let last: PrefixKey = keys[n - 1];
    let images: Vec<ImageRow> = Vec::new();
    let more: Vec<PrefixKey> = prefix_keys(&last, toks, images.as_slice());
    assert(images@ =~= Seq::<ImageRow>::empty());
    let m: usize = more.len();
    let mut i: usize = 1;
    while i < m
        invariant
            1 <= i <= m,
            n > 0,
            n == old(keys)@.len(),
            m == more@.len(),
            m == toks@.len() + 1,
            last == old(keys)@.last(),
            keys@.len() == n + i - 1,
            forall|j: int| 0 <= j < n ==> (#[trigger] keys@[j]) == old(keys)@[j],
            forall|j: int| n <= j < keys@.len() ==> (#[trigger] keys@[j]) == more@[j - n + 1],
        decreases m - i,
    {
        keys.push(more[i]);
        i = i + 1;
    }
    proof {
        assert forall|i: int| 0 <= i <= toks@.len() implies (#[trigger] keys@[n - 1 + i])@ == chain_key(
            last@,
            toks@,
            Seq::empty(),
            i,
        ) by {
            assert(more@[i]@ == chain_key(last@, toks@, Seq::empty(), i));
            if i == 0 {
                assert(keys@[n - 1] == old(keys)@[n - 1]);
            }
        }
    }
}

proof fn lemma_no_image_behind(images: Seq<ImageRow>, l: int, p: int)
    requires
        forall|i: int| 0 <= i < images.len() ==> (#[trigger] images[i]).0 < l,
        l <= p,
    ensures
        folded_image(images, p) is None,
{
}

/// Keys that were continued over more tokens are the keys of the whole sequence, as long as its
/// images all start before the part that was added.
pub proof fn law_extended_keys_continue_the_chain(
    root: Seq<u8>,
    head: Seq<u32>,
    tail: Seq<u32>,
    images: Seq<ImageRow>,
    i: int,
)
    requires
        0 <= i <= tail.len(),
        forall|j: int| 0 <= j < images.len() ==> (#[trigger] images[j]).0 < head.len(),
    ensures
        chain_key(root, head + tail, images, head.len() + i) == chain_key(
            chain_key(root, head, images, head.len() as int),
            tail,
            Seq::empty(),
            i,
        ),
    decreases i,
{
    let n = head.len() as int;
    if i == 0 {
        law_prefix_shares_keys(root, head + tail, images, head, images, n, n);
    } else {
        law_extended_keys_continue_the_chain(root, head, tail, images, i - 1);
        lemma_no_image_behind(images, n, n + i - 1);
        assert((head + tail)[n + i - 1] == tail[i - 1]);
        assert(folded_image(Seq::<ImageRow>::empty(), i - 1) is None);
    }
}

// ---- storing --------------------------------------------------------------------------------

/// What a request leaves to be stored.
pub struct SavePlan {
    /// The rows chunks that are missing, and whether the index is written after each.
    pub rows: Vec<(Span, bool)>,
    /// Whether the snapshot at the end is missing.
    pub snapshot: bool,
    /// The role at the end.
    pub role: Option<Role>,
}

/// Of the first `n` chunks, those whose rows are not stored; the index is written after the very
/// last chunk.
pub open spec fn missing(
    s: Seq<MetaView>,
    keys: Seq<Seq<u8>>,
    c: Seq<Span>,
    n: int,
) -> Seq<(Span, bool)>
    decreases n,
{
    if n <= 0 {
        Seq::empty()
    } else if lookup(s, keys[c[n - 1].end as int], Kind::Rows) is Some {
        missing(s, keys, c, n - 1)
    } else {
        missing(s, keys, c, n - 1).push((c[n - 1], n == c.len()))
    }
}

/// Where the deletions of the first `n` names, which may each have failed, lead: other objects stay,
/// of the named ones none is changed or new, and those that are left the backend refused to delete.
pub open spec fn pruned<B: Backend>(
    o0: Map<Seq<char>, Blob>,
    b1: B,
    names: Seq<Seq<char>>,
    n: int,
) -> bool {
    let o1 = b1.objects();
    &&& forall|x: Seq<char>|
        !names.contains(x) ==> (#[trigger] o1.dom().contains(x) <==> o0.dom().contains(x))
    &&& forall|x: Seq<char>| #[trigger]
        o1.dom().contains(x) ==> o0.dom().contains(x) && o1[x] == o0[x]
    &&& forall|i: int|
        0 <= i < n && o1.dom().contains(#[trigger] names[i]) ==> exists|at: B, e: String| #[trigger]
            deletion_fails(at, names[i], e)
}

/// What becomes of an object that is written and then indexed.
pub open spec fn stored_state(v: CacheView, m: MetaView, now: u64) -> CacheView {
    if position(v.entries, m.key, m.kind) is Some {
        CacheView { pending: Seq::empty(), ..v.touch(m.key, m.kind, now) }
    } else {
        v.insert(m, now)
    }
}

/// The names that are deleted for it.
pub open spec fn stored_gone(v: CacheView, m: MetaView, now: u64) -> Seq<Seq<char>> {
    if position(v.entries, m.key, m.kind) is Some { v.pending } else { v.insert_gone(m, now) }
}

/// What storing an object at `now` does: the state and the backend before and after it, and its
/// result. An object that is refused does not reach the backend.
pub open spec fn store_outcome<B: Backend>(
    v0: CacheView,
    b0: B,
    m: MetaView,
    body: Seq<u8>,
    now: u64,
    r: Result<(), CacheError>,
    v1: CacheView,
    b1: B,
) -> bool {
    if let Some(e) = v0.refusal(m) {
        r == Err::<(), CacheError>(e) && v1 == v0 && b1 == b0
    } else {
        write_outcome(b0, m, body, stored_state(v0, m, now), stored_gone(v0, m, now), r, v0, v1, b1)
    }
}

/// What reading an object at `now` does: the state and the backend before and after it, and its
/// result.
pub open spec fn read_outcome<B: Backend>(
    v0: CacheView,
    b0: B,
    key: Seq<u8>,
    kind: Kind,
    now: u64,
    r: Result<(), CacheError>,
    body: Seq<u8>,
    v1: CacheView,
    b1: B,
) -> bool {
    let name = name_text(key, kind);
    let o0 = b0.objects();
    let o1 = b1.objects();
    match r {
        Ok(_) => {
            &&& o0.dom().contains(name)
            &&& o0[name].body == body
            &&& v1 == v0.touch(key, kind, now)
            &&& o1 == o0
        },
        Err(e) => {
            &&& e matches CacheError::Backend(m) && read_fails(b0, name, body.len(), m)
            &&& v1 == v0.remove(key, kind)
            &&& if position(v0.entries, key, kind) is Some { dropped(o0, name, b1) } else { o1 == o0 }
        },
    }
}

/// Why a stored object does not serve a prompt.
#[derive(Clone, Copy, Debug, PartialEq, Eq, Structural)]
pub enum RestoreFlaw {
    /// Rows of other tokens: two prefixes share a key.
    Tokens { start: usize, end: usize },
    /// Rows of another size than the engine's.
    RowBytes { start: usize, end: usize, bytes: u64, want: usize },
    /// A snapshot that stands elsewhere than it was indexed.
    Position { found: usize, indexed: usize },
}

impl RestoreFlaw {
    /// What is said of the object.
    pub open spec fn message(self) -> Seq<char> {
        match self {
            RestoreFlaw::Tokens { start, end } => "rows "@ + decimal(start as nat) + ".."@ + decimal(
                end as nat,
            ) + " hold other tokens (hash collision?)"@,
            RestoreFlaw::RowBytes { start, end, bytes, want } => "rows "@ + decimal(start as nat)
                + ".."@ + decimal(end as nat) + " are "@ + decimal(bytes as nat)
                + " bytes, this engine expects "@ + decimal(want as nat),
            RestoreFlaw::Position { found, indexed } => "snapshot is at position "@ + decimal(
                found as nat,
            ) + " but was indexed at "@ + decimal(indexed as nat),
        }
    }

    /// What is said of the object.
    pub fn text(self) -> (s: String)
        ensures
            s@ == self.message(),
    {
        match self {
            RestoreFlaw::Tokens { start, end } => {
                let mut s: String = owned("rows ");
                push_decimal(&mut s, start as u64);
                push_text(&mut s, "..");
                push_decimal(&mut s, end as u64);
                push_text(&mut s, " hold other tokens (hash collision?)");
                s
            },
            RestoreFlaw::RowBytes { start, end, bytes, want } => {
                let mut s: String = owned("rows ");
                push_decimal(&mut s, start as u64);
                push_text(&mut s, "..");
                push_decimal(&mut s, end as u64);
                push_text(&mut s, " are ");
                push_decimal(&mut s, bytes);
                push_text(&mut s, " bytes, this engine expects ");
                push_decimal(&mut s, want as u64);
                s
            },
            RestoreFlaw::Position { found, indexed } => {
                let mut s: String = owned("snapshot is at position ");
                push_decimal(&mut s, found as u64);
                push_text(&mut s, " but was indexed at ");
                push_decimal(&mut s, indexed as u64);
                s
            },
        }
    }
}

/// Whether the rows of an object are those of the prompt, in the size that the engine expects.
pub fn check_rows(r: &ObjectMeta, ids: &[u32], want: usize) -> (out: Result<(), RestoreFlaw>)
    requires
        r.start <= r.end <= ids@.len(),
    ensures
        out == if r.tokens@ != ids@.subrange(r.start as int, r.end as int) {
            Err::<(), RestoreFlaw>(RestoreFlaw::Tokens { start: r.start, end: r.end })
        } else if want != r.bytes {
            Err::<(), RestoreFlaw>(
                RestoreFlaw::RowBytes { start: r.start, end: r.end, bytes: r.bytes, want },
            )
        } else {
            Ok::<(), RestoreFlaw>(())
        },
{
    if !same_tokens(&r.tokens, ids, r.start, r.end) {
        return Err(RestoreFlaw::Tokens { start: r.start, end: r.end });
    }
    if want as u128 != r.bytes as u128 {
        return Err(RestoreFlaw::RowBytes { start: r.start, end: r.end, bytes: r.bytes, want });
    }
    Ok(())
}

/// Whether `tokens` are the prompt's from `start` to `end`.
pub fn same_tokens(tokens: &Vec<u32>, ids: &[u32], start: usize, end: usize) -> (r: bool)
    requires
        start <= end <= ids@.len(),
    ensures
        r == (tokens@ == ids@.subrange(start as int, end as int)),
{
    let n: usize = tokens.len();
    if n != end - start {
        return false;
    }
    let mut i: usize = 0;
    while i < n
        invariant
            i <= n,
            n == tokens@.len(),
            n == end - start,
            end <= ids@.len(),
            forall|j: int| 0 <= j < i ==> tokens@[j] == ids@[start + j],
        decreases n - i,
    {
        if tokens[i] != ids[start + i] {
            assert(tokens@[i as int] != ids@.subrange(start as int, end as int)[i as int]);
            return false;
        }
        i = i + 1;
    }
    assert(tokens@ =~= ids@.subrange(start as int, end as int));
    true
}

/// Whether the rows of an object, which may lie anywhere, are those of the prompt.
pub fn rows_match(r: &ObjectMeta, ids: &[u32]) -> (out: bool)
    ensures
        out == (r.start <= r.end && r.end <= ids@.len() && r.tokens@ == ids@.subrange(
            r.start as int,
            r.end as int,
        )),
{
    r.start <= r.end && r.end <= ids.len() && same_tokens(&r.tokens, ids, r.start, r.end)
}

/// Whether a snapshot stands where it was indexed.
pub fn check_position(found: usize, indexed: usize) -> (out: Result<(), RestoreFlaw>)
    ensures
        out == if found != indexed {
            Err::<(), RestoreFlaw>(RestoreFlaw::Position { found, indexed })
        } else {
            Ok::<(), RestoreFlaw>(())
        },
{
    if found != indexed {
        Err(RestoreFlaw::Position { found, indexed })
    } else {
        Ok(())
    }
}

/// The prefix cache of one engine.
pub struct PrefixCache<B: Backend> {
    pub rules: Rules,
    pub cache: Cache<B>,
}

impl<B: Backend> PrefixCache<B> {
    pub fn roles(&self) -> (p: &Policies)
        ensures
            *p == self.rules.roles,
    {
        &self.rules.roles
    }

    /// Prefix keys of a prompt (one more than it has tokens).
    pub fn keys(&self, ids: &[u32], images: &[ImageRow]) -> (keys: Vec<PrefixKey>)
        ensures
            keys@.len() == ids@.len() + 1,
            forall|p: int|
                0 <= p <= ids@.len() ==> (#[trigger] keys@[p])@ == chain_key(
                    self.cache.view().root,
                    ids@,
                    images@,
                    p,
                ),
    {
        let root: PrefixKey = self.cache.root();
        prefix_keys(&root, ids, images)
    }

    /// What a request over `n` positions leaves to be stored: every rows chunk that is missing
    /// and whose role is persisted, and the snapshot at the end, unless a chunk before it was not
    /// persisted (it would be unreachable).
    pub fn save_plan(&self, keys: &Vec<PrefixKey>, spans: &[Span], n: usize) -> (p: SavePlan)
        requires
            keys@.len() == n + 1,
        ensures
            ({
                let c = self.rules.stored_chunks(spans@, n as int);
                let s = self.cache.view().entries;
                let k = key_views(keys@);
                &&& p.rows@ == missing(s, k, c, c.len() as int)
                &&& p.snapshot == (0 < n <= self.rules.cut(spans@) && lookup(
                    s,
                    k[n as int],
                    Kind::Snapshot,
                ) is None)
                &&& p.role == last_role(spans@, n as int, spans@.len() as int)
            }),
    {
        let c: Vec<Span> = self.rules.chunks_to_store(spans, n);
        let ghost k = key_views(keys@);
        let ghost s = self.cache.view().entries;
        let mut rows: Vec<(Span, bool)> = Vec::new();
        let m: usize = c.len();
        let mut i: usize = 0;
        proof {
            lemma_ended(
                chunks(spans@, 0, self.rules.chunk_len as int),
                if n < self.rules.cut(spans@) { n as int } else { self.rules.cut(spans@) },
                chunks(spans@, 0, self.rules.chunk_len as int).len() as int,
            );
        }
        while i < m
            invariant
                i <= m,
                m == c@.len(),
                keys@.len() == n + 1,
                k == key_views(keys@),
                s == self.cache.view().entries,
                forall|j: int| 0 <= j < c@.len() ==> (#[trigger] c@[j]).end <= n,
                rows@ == missing(s, k, c@, i as int),
            decreases m - i,
        {
            let ch = c[i];
            assert(k[ch.end as int] == keys@[ch.end as int]@);
            if !self.cache.has(keys[ch.end], Kind::Rows) {
                rows.push((ch, i + 1 == m));
            }
            i = i + 1;
        }
        let cut: usize = self.rules.persist_cut(spans);
        assert(k[n as int] == keys@[n as int]@);
        let snapshot: bool = n > 0 && n <= cut && !self.cache.has(keys[n], Kind::Snapshot);
        SavePlan { rows, snapshot, role: end_role(spans, n) }
    }

    /// The metadata of the rows of a chunk.
    pub fn rows_meta(&self, keys: &Vec<PrefixKey>, toks: &[u32], ch: Span, bytes: u64) -> (m: ObjectMeta)
        requires
            ch.start <= ch.end <= toks@.len(),
            keys@.len() == toks@.len() + 1,
        ensures
            m@ == (MetaView {
                format: FORMAT,
                root: self.cache.view().root,
                kind: Kind::Rows,
                key: keys@[ch.end as int]@,
                parent: keys@[ch.start as int]@,
                start: ch.start,
                end: ch.end,
                role: Some(ch.role),
                tokens: toks@.subrange(ch.start as int, ch.end as int),
                bytes,
                last_used: m.last_used,
            }),
    {
        let tokens: Vec<u32> = crate::object::copy_tokens(slice_subrange(toks, ch.start, ch.end));
        ObjectMeta::rows(
            self.cache.root(),
            keys[ch.end],
            keys[ch.start],
            ch.start,
            ch.end,
            ch.role,
            tokens,
            bytes,
        )
    }

    /// The metadata of the snapshot at `pos`.
    pub fn snapshot_meta(&self, key: PrefixKey, pos: usize, role: Option<Role>, bytes: u64) -> (m:
        ObjectMeta)
        ensures
            m@ == (MetaView {
                format: FORMAT,
                root: self.cache.view().root,
                kind: Kind::Snapshot,
                key: key@,
                parent: key@,
                start: pos,
                end: pos,
                role,
                tokens: Seq::empty(),
                bytes,
                last_used: m.last_used,
            }),
    {
        ObjectMeta::snapshot(self.cache.root(), key, pos, role, bytes)
    }

    /// The restore point for a prompt of `len` tokens, the deepest that is stored. One at the very
    /// end of the prompt serves only where logits are stored with it, that is where its snapshot
    /// is larger than `empty` bytes; else the next best is taken. What idled out is deleted.
    pub fn plan_restore_at(&mut self, keys: &Vec<PrefixKey>, len: usize, empty: usize, now: u64) -> (r:
        Option<RestorePlan>)
        requires
            old(self).cache.wf(),
            keys@.len() == len + 1,
        ensures
            final(self).cache.wf(),
            final(self).rules == old(self).rules,
            ({
                let v0 = old(self).cache.view();
                let k = key_views(keys@);
                let v1 = v0.best_restore(k, now);
                let s = v0.expire(now).entries;
                let first = deepest(s, k, len as int);
                let again = first == Some(len as int) && snapshot_at(s, k, len as int)->0.bytes <= empty;
                let t = v1.expire(now).entries;
                let k2 = k.take(len as int);
                let v2 = if again { v1.best_restore(k2, now) } else { v1 };
                &&& final(self).cache.view() == (CacheView { pending: Seq::empty(), ..v2 })
                &&& pruned(
                    old(self).cache.store().objects(),
                    final(self).cache.store(),
                    v2.pending,
                    v2.pending.len() as int,
                )
                &&& if again {
                    match deepest(t, k2, len - 1) {
                        Some(p) => r matches Some(plan) && plan_for(plan, t, k2, p),
                        None => r is None,
                    }
                } else {
                    match first {
                        Some(p) => r matches Some(plan) && plan_for(plan, s, k, p),
                        None => r is None,
                    }
                }
            }),
    {
        let ghost k = key_views(keys@);
        let ghost o0 = self.cache.store().objects();
        let first: Option<RestorePlan> = self.cache.best_restore_at(keys.as_slice(), now);
        assert(k.len() - 1 == len);
        let again: bool = match &first {
            Some(p) => p.pos == len && p.snapshot.bytes as u128 <= empty as u128,
            None => false,
        };
        let plan: Option<RestorePlan> = if again {
            let shorter: &[PrefixKey] = slice_subrange(keys.as_slice(), 0, len);
            proof {
                assert(key_views(shorter@) =~= k.take(len as int));
            }
            self.cache.best_restore_at(shorter, now)
        } else {
            first
        };
        let gone: Vec<String> = self.cache.take_pending_delete();
        let ghost names = texts(gone@);
        let ghost v = self.cache.view();
        let n: usize = gone.len();
        let mut i: usize = 0;
        while i < n
            invariant
                i <= n,
                n == gone@.len(),
                names == texts(gone@),
                self.cache.wf(),
                self.cache.view() == v,
                self.rules == old(self).rules,
                pruned(o0, self.cache.store(), names, i as int),
            decreases n - i,
        {
            let ghost at = self.cache.store();
            let b: &mut B = self.cache.backend();
            let d: Result<(), String> = b.delete(gone[i].as_str());
            proof {
                assert(d matches Err(e) ==> deletion_fails(at, names[i as int], e));
                assert(names[i as int] == gone@[i as int]@);
                assert(names.contains(gone@[i as int]@));
            }
            i = i + 1;
        }
        plan
    }

    /// An object was read, or could not be: it is marked as used, or dropped from the index. The
    /// result is the name of the object that is to be deleted.
    pub fn read_done(&mut self, key: PrefixKey, kind: Kind, read: bool, now: u64) -> (gone: Option<String>)
        requires
            old(self).cache.wf(),
        ensures
            final(self).cache.wf(),
            final(self).rules == old(self).rules,
            final(self).cache.store() == old(self).cache.store(),
            final(self).cache.view() == if read {
                old(self).cache.view().touch(key@, kind, now)
            } else {
                old(self).cache.view().remove(key@, kind)
            },
            if !read && position(old(self).cache.view().entries, key@, kind) is Some {
                gone matches Some(n) && n@ == name_text(key@, kind)
            } else {
                gone is None
            },
    {
        if read {
            self.cache.touch_object_at(key, kind, now);
            None
        } else {
            proof {
                crate::shelf::lemma_position(self.cache.view().entries, key@, kind);
            }
            self.cache.forget(key, kind)
        }
    }

    /// Read one object into `body` and mark it as used; one that cannot be read is dropped from
    /// the index and deleted.
    pub fn read_at(&mut self, key: PrefixKey, kind: Kind, body: &mut [u8], now: u64) -> (r: Result<
        (),
        CacheError,
    >)
        requires
            old(self).cache.wf(),
        ensures
            final(self).cache.wf(),
            final(self).rules == old(self).rules,
            final(body)@.len() == old(body)@.len(),
            read_outcome(
                old(self).cache.view(),
                old(self).cache.store(),
                key@,
                kind,
                now,
                r,
                final(body)@,
                final(self).cache.view(),
                final(self).cache.store(),
            ),
    {
        let name: String = object_name(&key, kind);
        let ghost at = self.cache.store();
        let got: Result<ObjectMeta, String> = self.cache.backend().get(name.as_str(), body);
        assert(got matches Err(e) ==> read_fails(at, name@, old(body)@.len(), e));
        let gone: Option<String> = self.read_done(key, kind, got.is_ok(), now);
        match got {
            Ok(_) => Ok(()),
            Err(e) => {
                if let Some(n) = gone {
                    let ghost at = self.cache.store();
                    let d: Result<(), String> = self.cache.backend().delete(n.as_str());
                    assert(d matches Err(f) ==> deletion_fails(at, n@, f));
                }
                Err(CacheError::Backend(e))
            },
        }
    }

    /// Write one object and index it; what has to go for it is deleted.
    pub fn store_at(&mut self, meta: ObjectMeta, body: &[u8], now: u64) -> (r: Result<(), CacheError>)
        requires
            old(self).cache.wf(),
        ensures
            final(self).cache.wf(),
            final(self).rules == old(self).rules,
            store_outcome(
                old(self).cache.view(),
                old(self).cache.store(),
                meta@,
                body@,
                now,
                r,
                final(self).cache.view(),
                final(self).cache.store(),
            ),
    {
        if let Err(e) = self.cache.check(&meta) {
            return Err(e);
        }
        let ghost at = self.cache.store();
        let w: Result<(), String> = self.cache.backend().put(&meta, body);
        assert(write_answers(at, meta@, body@, w));
        if let Err(e) = w {
            return Err(CacheError::Backend(e));
        }
        assert(write_taken(at, meta@, body@));
        let ghost v0 = old(self).cache.view();
        let ghost m = meta@;
        assert(self.cache.view() == v0);
        match self.cache.insert_at(meta, now) {
            Ok(gone) => {
                assert(texts(gone@) == stored_gone(v0, m, now));
                assert(self.cache.view() == stored_state(v0, m, now));
                self.cache.delete_all(&gone)
            },
            Err(e) => Err(e),
        }
    }
}

/// A line about the store: what it holds of its budget (`used` and `budget` are those sizes in
/// GiB), whether its index had to be rebuilt, and the rules it follows.
pub open spec fn described(
    place: Seq<char>,
    s: Stats,
    o: OpenReport,
    rules: Rules,
    roles: Seq<char>,
    used: Seq<char>,
    budget: Seq<char>,
) -> Seq<char> {
    "prefix cache at "@ + place + ": "@ + decimal(s.objects as nat) + " objects ("@ + decimal(
        s.rows as nat,
    ) + " rows, "@ + decimal(s.snapshots as nat) + " snapshots), "@ + used + " GiB of "@ + budget
        + " GiB"@ + (if o.index_loaded { ""@ } else { " (index rebuilt from the object headers)"@ }) + (
    if o.dropped_foreign > 0 {
        ", "@ + decimal(o.dropped_foreign as nat) + " objects of another model dropped"@
    } else {
        ""@
    }) + "; chunks of "@ + decimal(rules.chunk_len as nat) + " tokens, snapshots "@ + (
    match rules.policy {
        SnapshotPolicy::Message => "at message boundaries (spans of >= "@ + decimal(
            rules.min_tokens as nat,
        ) + " tokens) and request ends"@,
        SnapshotPolicy::Request => "at request ends"@,
    }) + "; roles: "@ + roles
}

impl<B: Backend> PrefixCache<B> {
    /// Open the store in `backend` for an engine of that identity.
    pub fn open_at(
        backend: B,
        max_bytes: u64,
        rules: Rules,
        identity: &[&str],
        now: u64,
    ) -> (r: Result<PrefixCache<B>, CacheError>)
        requires
            backend.sound(),
        ensures
            match r {
                Ok(c) => {
                    &&& c.cache.wf()
                    &&& c.rules == (Rules {
                        chunk_len: if rules.chunk_len < 1 { 1 } else { rules.chunk_len },
                        ..rules
                    })
                    &&& c.cache.view().root == key_of(material_bytes(identity@))
                    &&& c.cache.view().budget == max_bytes
                    &&& c.cache.view().policies == rules.roles
                    &&& c.cache.store().stored_index() == backend.stored_index()
                    &&& c.cache.view().agrees(c.cache.store().objects())
                    &&& exists|o: Opening, index: Option<Seq<u8>>| #[trigger]
                        opened_as(
                            backend,
                            c.cache,
                            o,
                            index,
                            key_of(material_bytes(identity@)),
                            rules.roles,
                            max_bytes,
                            now,
                        )
                },
                Err(e) => opening_fails(
                    backend,
                    key_of(material_bytes(identity@)),
                    rules.roles,
                    max_bytes,
                    now,
                    e,
                ),
            },
    {
        let root: PrefixKey = root_key(identity);
        match Cache::open_with_at(backend, max_bytes, root, rules.roles, now) {
            Ok(cache) => Ok(
                PrefixCache {
                    rules: Rules {
                        chunk_len: if rules.chunk_len < 1 { 1 } else { rules.chunk_len },
                        policy: rules.policy,
                        min_tokens: rules.min_tokens,
                        roles: rules.roles,
                    },
                    cache,
                },
            ),
            Err(e) => Err(e),
        }
    }

    #[verifier::rlimit(40)]
    pub fn describe(&self, used: &str, budget: &str) -> (s: String)
        requires
            self.cache.wf(),
        ensures
            s@ == described(
                self.cache.store().place(),
                self.cache.view().stats(),
                self.cache.opened(),
                self.rules,
                self.rules.roles.description(),
                used@,
                budget@,
            ),
    {
        let st: Stats = self.cache.stats();
        let o: &OpenReport = self.cache.open_report();
        let mut s: String = owned("prefix cache at ");
        push_text(&mut s, self.cache.describe().as_str());
        push_text(&mut s, ": ");
        push_decimal(&mut s, st.objects as u64);
        push_text(&mut s, " objects (");
        push_decimal(&mut s, st.rows as u64);
        push_text(&mut s, " rows, ");
        push_decimal(&mut s, st.snapshots as u64);
        push_text(&mut s, " snapshots), ");
        push_text(&mut s, used);
        push_text(&mut s, " GiB of ");
        push_text(&mut s, budget);
        push_text(&mut s, " GiB");
        proof {
            reveal_strlit("");
        }
        if !o.index_loaded {
            push_text(&mut s, " (index rebuilt from the object headers)");
        }
        if o.dropped_foreign > 0 {
            push_text(&mut s, ", ");
            push_decimal(&mut s, o.dropped_foreign as u64);
            push_text(&mut s, " objects of another model dropped");
        }
        push_text(&mut s, "; chunks of ");
        push_decimal(&mut s, self.rules.chunk_len as u64);
        push_text(&mut s, " tokens, snapshots ");
        match self.rules.policy {
            SnapshotPolicy::Message => {
                push_text(&mut s, "at message boundaries (spans of >= ");
                push_decimal(&mut s, self.rules.min_tokens as u64);
                push_text(&mut s, " tokens) and request ends");
            },
            SnapshotPolicy::Request => {
                push_text(&mut s, "at request ends");
            },
        }
        push_text(&mut s, "; roles: ");
        push_text(&mut s, self.rules.roles.describe().as_str());
        assert(s@ =~= described(
            self.cache.store().place(),
            st,
            self.cache.opened(),
            self.rules,
            self.rules.roles.description(),
            used@,
            budget@,
        ));
        s
    }
}

/// The role of the last span that starts before `n`.
pub fn end_role(spans: &[Span], n: usize) -> (r: Option<Role>)
    ensures
        r == last_role(spans@, n as int, spans@.len() as int),
{
    let mut i: usize = spans.len();
    while i > 0
        invariant
            i <= spans@.len(),
            last_role(spans@, n as int, i as int) == last_role(spans@, n as int, spans@.len() as int),
        decreases i,
    {
        if spans[i - 1].start < n {
            return Some(spans[i - 1].role);
        }
        i = i - 1;
    }
    None
}

proof fn lemma_ended(v: Seq<Span>, cap: int, n: int)
    requires
        0 <= n <= v.len(),
    ensures
        forall|i: int| 0 <= i < ended(v, cap, n).len() ==> (#[trigger] ended(v, cap, n)[i]).end <= cap,
    decreases n,
{
    if n > 0 {
        lemma_ended(v, cap, n - 1);
    }
}

/// Whether chunks follow each other from 0 to `n`.
pub open spec fn gapless(c: Seq<Span>, n: int) -> bool {
    &&& c.len() > 0 ==> c[0].start == 0 && c.last().end == n
    &&& c.len() == 0 ==> n == 0
    &&& forall|i: int| 0 <= i < c.len() ==> (#[trigger] c[i]).start < c[i].end
    &&& forall|i: int, j: int|
        #![trigger c[i], c[j]]
        0 <= i && j == i + 1 && j < c.len() ==> c[i].end == c[j].start
}

/// Whether the rows of a chunk are stored under the key of its end.
pub open spec fn chunk_stored(s: Seq<MetaView>, keys: Seq<Seq<u8>>, c: Span) -> bool {
    &&& lookup(s, keys[c.end as int], Kind::Rows) matches Some(m)
    &&& m.start == c.start
    &&& m.end == c.end
    &&& m.parent == keys[c.start as int]
}

proof fn lemma_stored_chain(s: Seq<MetaView>, keys: Seq<Seq<u8>>, c: Seq<Span>, n: int)
    requires
        gapless(c, n),
        forall|i: int| 0 <= i < c.len() ==> #[trigger] chunk_stored(s, keys, c[i]),
    ensures
        chain(s, keys, n) is Some,
    decreases c.len(),
{
    if c.len() > 0 {
        let last = c.last();
        assert(chunk_stored(s, keys, c[c.len() - 1]));
        let d = c.drop_last();
        assert(c[c.len() - 1].start < c[c.len() - 1].end);
        if d.len() > 0 {
            assert(c[c.len() - 2].end == c[c.len() - 1].start);
            assert(c[0].start == 0);
        } else {
            assert(last.start == 0);
        }
        assert forall|i: int| 0 <= i < d.len() implies #[trigger] chunk_stored(s, keys, d[i]) by {
            assert(chunk_stored(s, keys, c[i]));
        }
        assert(gapless(d, last.start as int)) by {
            assert forall|i: int| 0 <= i < d.len() implies (#[trigger] d[i]).start < d[i].end by {
                assert(c[i].start < c[i].end);
            }
            assert forall|i: int, j: int|
                #![trigger d[i], d[j]]
                0 <= i && j == i + 1 && j < d.len() implies d[i].end == d[j].start by {
                assert(c[i].end == c[j].start);
            }
        }
        lemma_stored_chain(s, keys, d, last.start as int);
    }
}

/// What a request stores can be restored: with the rows of every chunk up to `n` and the snapshot
/// there, position `n` is a restore point, and the restore goes at least as deep.
pub proof fn law_complete_save_is_restorable(
    s: Seq<MetaView>,
    keys: Seq<Seq<u8>>,
    c: Seq<Span>,
    n: int,
)
    requires
        1 <= n < keys.len(),
        gapless(c, n),
        forall|i: int| 0 <= i < c.len() ==> #[trigger] chunk_stored(s, keys, c[i]),
        snapshot_at(s, keys, n) is Some,
    ensures
        restorable(s, keys, n),
        deepest(s, keys, keys.len() - 1) matches Some(p) && p >= n,
{
    lemma_stored_chain(s, keys, c, n);
    assert(restorable(s, keys, n));
    crate::restore::law_deepest(s, keys, keys.len() - 1);
}

/// Nothing is stored beyond the first span whose role is not persisted.
pub proof fn law_nothing_stored_beyond_the_cut(r: Rules, spans: Seq<Span>, n: int, i: int)
    requires
        0 <= i < r.stored_chunks(spans, n).len(),
    ensures
        r.stored_chunks(spans, n)[i].end <= n,
        r.stored_chunks(spans, n)[i].end <= r.cut(spans),
{
    let all = chunks(spans, 0, r.chunk_len as int);
    let cut = r.cut(spans);
    lemma_ended(all, if n < cut { n } else { cut }, all.len() as int);
}

/// Storing is cut at the first token of a role that is not persisted: no such span starts before the
/// cut, and the cut is the start of one, unless there is none.
pub proof fn law_cut_is_at_the_first_unstored_span(r: Rules, spans: Seq<Span>, i: int)
    requires
        0 <= i < spans.len(),
    ensures
        !r.roles.policy(spans[i].role).persist ==> r.cut(spans) <= spans[i].start,
        r.cut(spans) == usize::MAX || exists|j: int|
            0 <= j < spans.len() && !r.roles.policy((#[trigger] spans[j]).role).persist && spans[j].start
                == r.cut(spans),
{
    lemma_first_unstored(r.roles, spans, spans.len() as int, i);
}

proof fn lemma_first_unstored(roles: Policies, spans: Seq<Span>, n: int, i: int)
    requires
        0 <= n <= spans.len(),
    ensures
        0 <= i < n && !roles.policy(spans[i].role).persist ==> first_unstored(roles, spans, n)
            <= spans[i].start,
        first_unstored(roles, spans, n) == usize::MAX || exists|j: int|
            0 <= j < n && !roles.policy((#[trigger] spans[j]).role).persist && spans[j].start == first_unstored(
                roles,
                spans,
                n,
            ),
    decreases n,
{
    if n > 0 {
        lemma_first_unstored(roles, spans, n - 1, i);
        let s = spans[n - 1];
        if !roles.policy(s.role).persist && s.start < first_unstored(roles, spans, n - 1) {
            assert(spans[n - 1].start == first_unstored(roles, spans, n));
        }
    }
}

/// A span calls for a snapshot exactly where it is long enough, ends behind what is there already,
/// within what is stored, and its role takes snapshots.
pub proof fn law_spans_that_call_for_a_snapshot(r: Rules, s: Span, from: int, len: int, cut: int)
    ensures
        r.snapshots(s, from, len, cut) <==> s.end - s.start >= r.min_tokens && s.end > from && s.end <= len
            && s.end <= cut && r.roles.policy(s.role).snapshot,
{
}

/// A snapshot has the role of the first span that calls for it.
pub proof fn law_snapshot_has_the_role_of_its_span(
    r: Rules,
    spans: Seq<Span>,
    from: int,
    len: int,
    cut: int,
    n: int,
    i: int,
)
    requires
        0 <= i < r.points(spans, from, len, cut, n).len(),
        0 <= n <= spans.len(),
    ensures
        exists|j: int|
            0 <= j < n && (#[trigger] spans[j]).end == r.points(spans, from, len, cut, n)[i].0
                && spans[j].role == r.points(spans, from, len, cut, n)[i].1 && r.snapshots(
                spans[j],
                from,
                len,
                cut,
            ),
    decreases n,
{
    if n > 0 {
        let rest = r.points(spans, from, len, cut, n - 1);
        let s = spans[n - 1];
        if r.snapshots(s, from, len, cut) {
            lemma_point_is_old_or_new(rest, s.end, s.role, i);
            let x = with_point(rest, s.end, s.role)[i];
            if x != (s.end, s.role) {
                let k = choose|k: int| 0 <= k < rest.len() && rest[k] == x;
                law_snapshot_has_the_role_of_its_span(r, spans, from, len, cut, n - 1, k);
            } else {
                assert(spans[n - 1].end == x.0);
            }
        } else {
            law_snapshot_has_the_role_of_its_span(r, spans, from, len, cut, n - 1, i);
        }
    }
}

proof fn lemma_point_is_old_or_new(v: Seq<(usize, Role)>, end: usize, role: Role, i: int)
    requires
        0 <= i < with_point(v, end, role).len(),
    ensures
        with_point(v, end, role)[i] == (end, role) || exists|k: int| 0 <= k < v.len() && v[k] == with_point(
            v,
            end,
            role,
        )[i],
    decreases v.len(),
{
    if v.len() == 0 || v.last().0 < end {
        if i < v.len() {
            assert(v[i] == with_point(v, end, role)[i]);
        }
    } else if v.last().0 == end {
        assert(v[i] == with_point(v, end, role)[i]);
    } else {
        let front = with_point(v.drop_last(), end, role);
        if i < front.len() {
            lemma_point_is_old_or_new(v.drop_last(), end, role, i);
            if front[i] != (end, role) {
                let k = choose|k: int| 0 <= k < v.len() - 1 && v.drop_last()[k] == front[i];
                assert(v[k] == front[i]);
            }
        } else {
            assert(v[v.len() - 1] == with_point(v, end, role)[i]);
        }
    }
}

/// Every chunk that ends within the tokens and before the cut is stored, in order.
pub proof fn law_every_chunk_before_the_cut_is_stored(r: Rules, spans: Seq<Span>, n: int, i: int)
    requires
        0 <= i < chunks(spans, 0, r.chunk_len as int).len(),
    ensures
        ({
            let c = chunks(spans, 0, r.chunk_len as int)[i];
            c.end <= n && c.end <= r.cut(spans) ==> r.stored_chunks(spans, n).contains(c)
        }),
{
    let all = chunks(spans, 0, r.chunk_len as int);
    let cut = r.cut(spans);
    let cap = if n < cut { n } else { cut };
    if all[i].end <= cap {
        lemma_ended_holds(all, cap, all.len() as int, i);
    }
}

proof fn lemma_ended_holds(v: Seq<Span>, cap: int, n: int, i: int)
    requires
        0 <= i < n <= v.len(),
        v[i].end <= cap,
    ensures
        ended(v, cap, n).contains(v[i]),
    decreases n,
{
    let rest = ended(v, cap, n - 1);
    if i == n - 1 {
        assert(ended(v, cap, n)[rest.len() as int] == v[i]);
    } else {
        lemma_ended_holds(v, cap, n - 1, i);
        let k = choose|k: int| 0 <= k < rest.len() && rest[k] == v[i];
        assert(ended(v, cap, n)[k] == v[i]);
    }
}

/// What has to be written are the chunks whose rows are not there, in order, the last one marked.
pub proof fn law_missing_chunks_are_written(s: Seq<MetaView>, keys: Seq<Seq<u8>>, c: Seq<Span>, n: int)
    requires
        0 <= n < c.len(),
    ensures
        lookup(s, keys[c[n].end as int], Kind::Rows) is Some ==> missing(s, keys, c, n + 1) == missing(
            s,
            keys,
            c,
            n,
        ),
        lookup(s, keys[c[n].end as int], Kind::Rows) is None ==> missing(s, keys, c, n + 1) == missing(
            s,
            keys,
            c,
            n,
        ).push((c[n], n == c.len() - 1)),
        missing(s, keys, c, 0) == Seq::<(Span, bool)>::empty(),
{
}

/// The role of what ends at a position is that of the last span that starts before it.
pub proof fn law_role_at_the_end(spans: Seq<Span>, n: int, k: int)
    requires
        0 <= k < spans.len(),
        spans[k].start < n,
        forall|j: int| k < j < spans.len() ==> (#[trigger] spans[j]).start >= n,
    ensures
        last_role(spans, n, spans.len() as int) == Some(spans[k].role),
{
    lemma_last_role(spans, n, k, spans.len() as int);
}

proof fn lemma_last_role(spans: Seq<Span>, n: int, k: int, m: int)
    requires
        0 <= k < m <= spans.len(),
        spans[k].start < n,
        forall|j: int| k < j < spans.len() ==> (#[trigger] spans[j]).start >= n,
    ensures
        last_role(spans, n, m) == Some(spans[k].role),
    decreases m,
{
    if m > k + 1 {
        assert(spans[m - 1].start >= n);
        lemma_last_role(spans, n, k, m - 1);
    }
}

} // verus!
