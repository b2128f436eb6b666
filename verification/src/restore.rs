//! Restore points: a snapshot whose rows chunks chain back to position 0 without a gap.
use crate::object::{Kind, MetaView};
use crate::shelf::{distinct, lemma_position, lemma_touched, lookup, total, touched};
use vstd::prelude::*;

verus! {

/// The rows chunks that cover `0..p`, in order, where every one of them is there: each ends
/// where the next one starts and carries the key of its start.
pub open spec fn chain(s: Seq<MetaView>, keys: Seq<Seq<u8>>, p: int) -> Option<Seq<MetaView>>
    decreases p,
{
    if p <= 0 {
        Some(Seq::empty())
    } else {
        match lookup(s, keys[p], Kind::Rows) {
            Some(e) => if e.end == p && e.start < p && keys[e.start as int] == e.parent {
                match chain(s, keys, e.start as int) {
                    Some(rows) => Some(rows.push(e)),
                    None => None,
                }
            } else {
                None
            },
            None => None,
        }
    }
}

/// The snapshot at position `p`.
pub open spec fn snapshot_at(s: Seq<MetaView>, keys: Seq<Seq<u8>>, p: int) -> Option<MetaView> {
    match lookup(s, keys[p], Kind::Snapshot) {
        Some(m) => if m.end == p { Some(m) } else { None },
        None => None,
    }
}

/// Whether the state at position `p` can be restored.
pub open spec fn restorable(s: Seq<MetaView>, keys: Seq<Seq<u8>>, p: int) -> bool {
    1 <= p < keys.len() && snapshot_at(s, keys, p) is Some && chain(s, keys, p) is Some
}

/// The largest restorable position up to `n`.
pub open spec fn deepest(s: Seq<MetaView>, keys: Seq<Seq<u8>>, n: int) -> Option<int>
    decreases n,
{
    if n < 1 {
        None
    } else if restorable(s, keys, n) {
        Some(n)
    } else {
        deepest(s, keys, n - 1)
    }
}

/// The deepest restore point is restorable and no deeper position is; where there is none,
/// no position is.
pub proof fn law_deepest(s: Seq<MetaView>, keys: Seq<Seq<u8>>, n: int)
    ensures
        match deepest(s, keys, n) {
            Some(p) => 1 <= p <= n && restorable(s, keys, p) && forall|q: int|
                p < q <= n ==> !#[trigger] restorable(s, keys, q),
            None => forall|q: int| q <= n ==> !#[trigger] restorable(s, keys, q),
        },
    decreases n,
{
    if n >= 1 && !restorable(s, keys, n) {
        law_deepest(s, keys, n - 1);
    }
}

/// The rows of a restore point are present, cover `0..p` without a gap, and carry the keys of
/// their ends.
pub proof fn law_chain_is_gapless(s: Seq<MetaView>, keys: Seq<Seq<u8>>, p: int)
    requires
        0 <= p,
        chain(s, keys, p) is Some,
    ensures
        ({
            let rows = chain(s, keys, p)->0;
            &&& p == 0 <==> rows.len() == 0
            &&& rows.len() > 0 ==> rows[0].start == 0 && rows.last().end == p
            &&& forall|i: int| #![trigger rows[i]]
                0 <= i < rows.len() ==> s.contains(rows[i]) && rows[i].kind == Kind::Rows
                    && rows[i].start < rows[i].end <= p && rows[i].key == keys[rows[i].end as int]
                    && rows[i].parent == keys[rows[i].start as int]
            &&& forall|i: int, j: int| #![trigger rows[i], rows[j]]
                0 <= i && j == i + 1 && j < rows.len() ==> rows[i].end == rows[j].start
        }),
    decreases p,
{
    if p > 0 {
        lemma_position(s, keys[p], Kind::Rows);
        let e = lookup(s, keys[p], Kind::Rows)->0;
        assert(s.contains(e));
        law_chain_is_gapless(s, keys, e.start as int);
    }
}

/// The objects after the first `n` rows of a plan were used, one after the other.
pub open spec fn rows_touched(s: Seq<MetaView>, rows: Seq<MetaView>, n: int, now: u64) -> Seq<MetaView>
    decreases n,
{
    if n <= 0 {
        s
    } else {
        touched(rows_touched(s, rows, n - 1, now), rows[n - 1].key, Kind::Rows, now)
    }
}

pub proof fn lemma_rows_touched(s: Seq<MetaView>, rows: Seq<MetaView>, n: int, now: u64)
    requires
        distinct(s),
    ensures
        distinct(rows_touched(s, rows, n, now)),
        total(rows_touched(s, rows, n, now)) == total(s),
    decreases n,
{
    if n > 0 {
        lemma_rows_touched(s, rows, n - 1, now);
        lemma_touched(rows_touched(s, rows, n - 1, now), rows[n - 1].key, Kind::Rows, now);
    }
}

/// A position can be restored exactly where the store has a snapshot of its key that ends there, and
/// rows of every position before it.
pub proof fn law_restorable_positions(s: Seq<MetaView>, keys: Seq<Seq<u8>>, p: int)
    requires
        1 <= p < keys.len(),
    ensures
        restorable(s, keys, p) <==> (lookup(s, keys[p], Kind::Snapshot) matches Some(m) && m.end == p)
            && chain(s, keys, p) is Some,
{
}

/// Rows that follow the rows of a position make the position at their end one that has rows.
pub proof fn law_chain_grows(s: Seq<MetaView>, keys: Seq<Seq<u8>>, p: int, e: MetaView)
    requires
        0 < p < keys.len(),
        lookup(s, keys[p], Kind::Rows) == Some(e),
        e.end == p,
        e.start < p,
        keys[e.start as int] == e.parent,
        chain(s, keys, e.start as int) is Some,
    ensures
        chain(s, keys, p) == Some(chain(s, keys, e.start as int)->0.push(e)),
        chain(s, keys, 0) == Some(Seq::<MetaView>::empty()),
{
}

} // verus!
