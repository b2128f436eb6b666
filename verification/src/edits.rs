//! What the edit distance counts: the fewest single-byte edits that turn one text into another.
use crate::schema::{
    distance, law_distance_is_symmetric, law_distance_tells_texts_apart, lemma_distance_bound,
    text_distance,
};
use vstd::prelude::*;
use vstd::utf8::encode_utf8;

verus! {

/// Whether adding, dropping or replacing one byte leads from `a` to `b`.
pub open spec fn one_edit(a: Seq<u8>, b: Seq<u8>) -> bool {
    ||| exists|i: int, x: u8| 0 <= i <= a.len() && b == #[trigger] a.insert(i, x)
    ||| exists|i: int| 0 <= i < a.len() && b == #[trigger] a.remove(i)
    ||| exists|i: int, x: u8| 0 <= i < a.len() && b == #[trigger] a.update(i, x)
}

/// Whether `n` such edits, one after the other, lead from `a` to `b`.
pub open spec fn edited(a: Seq<u8>, b: Seq<u8>, n: nat) -> bool
    decreases n,
{
    if n == 0 {
        a == b
    } else {
        exists|c: Seq<u8>| #[trigger] one_edit(a, c) && edited(c, b, (n - 1) as nat)
    }
}

/// The distance of two byte strings as wholes.
pub open spec fn whole_distance(a: Seq<u8>, b: Seq<u8>) -> int {
    distance(a, b, a.len() as int, b.len() as int)
}

/// Edits may follow edits.
proof fn lemma_edited_on(a: Seq<u8>, b: Seq<u8>, c: Seq<u8>, n: nat, m: nat)
    requires
        edited(a, b, n),
        edited(b, c, m),
    ensures
        edited(a, c, n + m),
    decreases n,
{
    if n > 0 {
        let x = choose|x: Seq<u8>| #[trigger] one_edit(a, x) && edited(x, b, (n - 1) as nat);
        lemma_edited_on(x, b, c, (n - 1) as nat, m);
        assert(edited(x, c, (n + m - 1) as nat));
    }
}

proof fn lemma_edited_once(a: Seq<u8>, b: Seq<u8>)
    requires
        one_edit(a, b),
    ensures
        edited(a, b, 1),
{
    assert(edited(b, b, 0));
}

proof fn lemma_one_edit_push(a: Seq<u8>, b: Seq<u8>, x: u8)
    requires
        one_edit(a, b),
    ensures
        one_edit(a.push(x), b.push(x)),
{
    let p = a.push(x);
    if exists|i: int, y: u8| 0 <= i <= a.len() && b == #[trigger] a.insert(i, y) {
        let (i, y) = choose|i: int, y: u8| 0 <= i <= a.len() && b == #[trigger] a.insert(i, y);
        assert(b.push(x) =~= p.insert(i, y));
    } else if exists|i: int| 0 <= i < a.len() && b == #[trigger] a.remove(i) {
        let i = choose|i: int| 0 <= i < a.len() && b == #[trigger] a.remove(i);
        assert(b.push(x) =~= p.remove(i));
    } else {
        let (i, y) = choose|i: int, y: u8| 0 <= i < a.len() && b == #[trigger] a.update(i, y);
        assert(b.push(x) =~= p.update(i, y));
    }
}

/// What is edited may stand before one more byte.
proof fn lemma_edited_push(a: Seq<u8>, b: Seq<u8>, n: nat, x: u8)
    requires
        edited(a, b, n),
    ensures
        edited(a.push(x), b.push(x), n),
    decreases n,
{
    if n > 0 {
        let c = choose|c: Seq<u8>| #[trigger] one_edit(a, c) && edited(c, b, (n - 1) as nat);
        lemma_edited_push(c, b, (n - 1) as nat, x);
        lemma_one_edit_push(a, c, x);
        assert(edited(c.push(x), b.push(x), (n - 1) as nat));
    }
}

/// As many edits as the distance suffice.
proof fn lemma_distance_suffices(a: Seq<u8>, b: Seq<u8>, i: int, j: int)
    requires
        0 <= i <= a.len(),
        0 <= j <= b.len(),
    ensures
        distance(a, b, i, j) >= 0,
        edited(a.take(i), b.take(j), distance(a, b, i, j) as nat),
    decreases i + j,
{
    lemma_distance_bound(a, b, i, j);
    let d = distance(a, b, i, j);
    if i == 0 && j == 0 {
        assert(a.take(0) =~= b.take(0));
    } else if i > 0 && (j == 0 || d == distance(a, b, i - 1, j) + 1) {
        lemma_distance_suffices(a, b, i - 1, j);
        assert(a.take(i - 1) =~= a.take(i).remove(i - 1));
        lemma_edited_once(a.take(i), a.take(i - 1));
        lemma_edited_on(a.take(i), a.take(i - 1), b.take(j), 1, distance(a, b, i - 1, j) as nat);
    } else if j > 0 && (i == 0 || d == distance(a, b, i, j - 1) + 1) {
        lemma_distance_suffices(a, b, i, j - 1);
        assert(b.take(j) =~= b.take(j - 1).insert(j - 1, b[j - 1]));
        lemma_edited_once(b.take(j - 1), b.take(j));
        lemma_edited_on(a.take(i), b.take(j - 1), b.take(j), distance(a, b, i, j - 1) as nat, 1);
    } else {
        lemma_distance_suffices(a, b, i - 1, j - 1);
        let x = a[i - 1];
        let y = b[j - 1];
        let front = b.take(j - 1);
        lemma_edited_push(a.take(i - 1), front, distance(a, b, i - 1, j - 1) as nat, x);
        assert(a.take(i) =~= a.take(i - 1).push(x));
        assert(b.take(j) =~= front.push(y));
        if x != y {
            assert(front.push(y) =~= front.push(x).update(j - 1, y));
            lemma_edited_once(front.push(x), front.push(y));
            lemma_edited_on(
                a.take(i),
                front.push(x),
                b.take(j),
                distance(a, b, i - 1, j - 1) as nat,
                1,
            );
        }
    }
}

/// The distance goes by the bytes that are compared, not by those behind them.
proof fn lemma_same_front(a: Seq<u8>, c: Seq<u8>, b: Seq<u8>, i: int, j: int)
    requires
        0 <= i <= a.len(),
        i <= c.len(),
        0 <= j <= b.len(),
        forall|k: int| 0 <= k < i ==> a[k] == c[k],
    ensures
        distance(a, b, i, j) == distance(c, b, i, j),
    decreases i + j,
{
    if i > 0 && j > 0 {
        lemma_same_front(a, c, b, i - 1, j);
        lemma_same_front(a, c, b, i, j - 1);
        lemma_same_front(a, c, b, i - 1, j - 1);
    }
}

/// One byte more costs at most one edit.
proof fn lemma_one_byte_more(a: Seq<u8>, b: Seq<u8>, i: int, j: int)
    requires
        0 <= i < a.len(),
        0 <= j <= b.len(),
    ensures
        distance(a, b, i, j) <= distance(a, b, i + 1, j) + 1,
        distance(a, b, i + 1, j) <= distance(a, b, i, j) + 1,
    decreases j,
{
    if j > 0 {
        lemma_one_byte_more(a, b, i, j - 1);
    }
}

/// A byte more at `p` changes the distance by at most one.
proof fn lemma_added_byte(a: Seq<u8>, p: int, x: u8, b: Seq<u8>, i: int, j: int)
    requires
        0 <= p <= i <= a.len(),
        0 <= j <= b.len(),
    ensures
        distance(a, b, i, j) <= distance(a.insert(p, x), b, i + 1, j) + 1,
        distance(a.insert(p, x), b, i + 1, j) <= distance(a, b, i, j) + 1,
    decreases i + j,
{
    let c = a.insert(p, x);
    if i == p {
        lemma_same_front(a, c, b, p, j);
        lemma_one_byte_more(c, b, p, j);
    } else if j > 0 {
        assert(c[i] == a[i - 1]);
        lemma_added_byte(a, p, x, b, i - 1, j);
        lemma_added_byte(a, p, x, b, i, j - 1);
        lemma_added_byte(a, p, x, b, i - 1, j - 1);
    }
}

/// Another byte at `p` changes the distance by at most one.
proof fn lemma_replaced_byte(a: Seq<u8>, p: int, x: u8, b: Seq<u8>, i: int, j: int)
    requires
        0 <= p < i <= a.len(),
        0 <= j <= b.len(),
    ensures
        distance(a, b, i, j) <= distance(a.update(p, x), b, i, j) + 1,
    decreases i + j,
{
    let c = a.update(p, x);
    if j > 0 {
        lemma_replaced_byte(a, p, x, b, i, j - 1);
        if i == p + 1 {
            lemma_same_front(a, c, b, p, j);
            lemma_same_front(a, c, b, p, j - 1);
        } else {
            lemma_replaced_byte(a, p, x, b, i - 1, j);
            lemma_replaced_byte(a, p, x, b, i - 1, j - 1);
        }
    }
}

/// One edit changes the distance by at most one.
proof fn lemma_one_edit_closer(a: Seq<u8>, c: Seq<u8>, b: Seq<u8>)
    requires
        one_edit(a, c),
    ensures
        whole_distance(a, b) <= whole_distance(c, b) + 1,
{
    let n = b.len() as int;
    if exists|i: int, y: u8| 0 <= i <= a.len() && c == #[trigger] a.insert(i, y) {
        let (i, y) = choose|i: int, y: u8| 0 <= i <= a.len() && c == #[trigger] a.insert(i, y);
        lemma_added_byte(a, i, y, b, a.len() as int, n);
    } else if exists|i: int| 0 <= i < a.len() && c == #[trigger] a.remove(i) {
        let i = choose|i: int| 0 <= i < a.len() && c == #[trigger] a.remove(i);
        assert(a =~= c.insert(i, a[i]));
        lemma_added_byte(c, i, a[i], b, c.len() as int, n);
    } else {
        let (i, y) = choose|i: int, y: u8| 0 <= i < a.len() && c == #[trigger] a.update(i, y);
        lemma_replaced_byte(a, i, y, b, a.len() as int, n);
    }
}

/// Fewer edits than the distance do not suffice.
proof fn lemma_distance_is_needed(a: Seq<u8>, b: Seq<u8>, n: nat)
    requires
        edited(a, b, n),
    ensures
        whole_distance(a, b) <= n,
    decreases n,
{
    if n == 0 {
        law_distance_tells_texts_apart(a, b, a.len() as int, b.len() as int);
        assert(a.take(a.len() as int) =~= b.take(b.len() as int));
    } else {
        let c = choose|c: Seq<u8>| #[trigger] one_edit(a, c) && edited(c, b, (n - 1) as nat);
        lemma_distance_is_needed(c, b, (n - 1) as nat);
        lemma_one_edit_closer(a, c, b);
    }
}

/// The distance is the least number of bytes that have to be added, dropped or replaced to turn
/// one byte string into the other: so many edits suffice, and no fewer.
pub proof fn law_distance_is_the_fewest_edits(a: Seq<u8>, b: Seq<u8>)
    ensures
        whole_distance(a, b) >= 0,
        edited(a, b, whole_distance(a, b) as nat),
        forall|n: nat| #[trigger] edited(a, b, n) ==> whole_distance(a, b) <= n,
{
    lemma_distance_suffices(a, b, a.len() as int, b.len() as int);
    assert(a.take(a.len() as int) =~= a);
    assert(b.take(b.len() as int) =~= b);
    assert forall|n: nat| #[trigger] edited(a, b, n) implies whole_distance(a, b) <= n by {
        lemma_distance_is_needed(a, b, n);
    }
}

/// A detour is no shorter.
pub proof fn law_distance_obeys_the_triangle(a: Seq<u8>, b: Seq<u8>, c: Seq<u8>)
    ensures
        whole_distance(a, c) <= whole_distance(a, b) + whole_distance(b, c),
{
    law_distance_is_the_fewest_edits(a, b);
    law_distance_is_the_fewest_edits(b, c);
    lemma_edited_on(a, b, c, whole_distance(a, b) as nat, whole_distance(b, c) as nat);
    lemma_distance_is_needed(a, c, (whole_distance(a, b) + whole_distance(b, c)) as nat);
}

/// The distance of texts is one: it is the same both ways, it is 0 for equal texts and for no
/// others, and a detour is no shorter.
pub proof fn law_text_distance(a: Seq<char>, b: Seq<char>, c: Seq<char>)
    ensures
        text_distance(a, b) == text_distance(b, a),
        text_distance(a, b) == 0 <==> a == b,
        text_distance(a, c) <= text_distance(a, b) + text_distance(b, c),
        edited(encode_utf8(a), encode_utf8(b), text_distance(a, b) as nat),
        forall|n: nat| #[trigger]
            edited(encode_utf8(a), encode_utf8(b), n) ==> text_distance(a, b) <= n,
{
    let x = encode_utf8(a);
    let y = encode_utf8(b);
    law_distance_is_symmetric(x, y, x.len() as int, y.len() as int);
    law_distance_tells_texts_apart(x, y, x.len() as int, y.len() as int);
    law_distance_obeys_the_triangle(x, y, encode_utf8(c));
    law_distance_is_the_fewest_edits(x, y);
    assert(x.take(x.len() as int) =~= x);
    assert(y.take(y.len() as int) =~= y);
    vstd::utf8::encode_utf8_decode_utf8(a);
    vstd::utf8::encode_utf8_decode_utf8(b);
}

} // verus!
