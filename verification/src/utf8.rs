//! Byte positions in text that is held as characters.
use vstd::prelude::*;
use vstd::utf8::{char_is_scalar, encode_scalar, encode_utf8};

verus! {

/// How many bytes a character takes in UTF-8.
pub open spec fn width(c: char) -> int {
    if (c as u32) < 0x80 {
        1
    } else if (c as u32) < 0x800 {
        2
    } else if (c as u32) < 0x10000 {
        3
    } else {
        4
    }
}

/// How many bytes a text takes in UTF-8.
pub open spec fn byte_len(s: Seq<char>) -> int
    decreases s.len(),
{
    if s.len() == 0 { 0 } else { byte_len(s.drop_last()) + width(s.last()) }
}

/// How many characters lie wholly within the first `b` bytes.
pub open spec fn whole_chars(s: Seq<char>, b: int) -> int
    decreases s.len(),
{
    if s.len() == 0 || byte_len(s) <= b { s.len() as int } else { whole_chars(s.drop_last(), b) }
}

/// The first character that starts at byte `b` or later (the length where none does).
pub open spec fn char_from(s: Seq<char>, b: int) -> int {
    let k = whole_chars(s, b);
    if k < s.len() && byte_len(s.take(k)) < b { k + 1 } else { k }
}

pub fn char_width(c: char) -> (w: usize)
    ensures
        w == width(c),
{
    let v: u32 = c as u32;
    if v < 0x80 {
        1
    } else if v < 0x800 {
        2
    } else if v < 0x10000 {
        3
    } else {
        4
    }
}

pub proof fn lemma_byte_len_concat(a: Seq<char>, b: Seq<char>)
    ensures
        byte_len(a + b) == byte_len(a) + byte_len(b),
    decreases b.len(),
{
    if b.len() == 0 {
        assert(a + b =~= a);
    } else {
        assert((a + b).drop_last() =~= a + b.drop_last());
        assert((a + b).last() == b.last());
        lemma_byte_len_concat(a, b.drop_last());
    }
}

/// A text takes as many bytes as its encoding holds.
pub proof fn law_byte_len(s: Seq<char>)
    ensures
        byte_len(s) == encode_utf8(s).len(),
    decreases s.len(),
{
    if s.len() > 0 {
        let rest = s.drop_first();
        law_byte_len(rest);
        assert(s =~= seq![s[0]] + rest);
        lemma_byte_len_concat(seq![s[0]], rest);
        assert(seq![s[0]].drop_last() =~= Seq::<char>::empty());
        reveal_with_fuel(byte_len, 2);
        assert(byte_len(seq![s[0]]) == width(s[0]));
        assert(encode_utf8(s) == encode_scalar(s[0] as u32) + encode_utf8(rest));
        char_is_scalar(s[0]);
        assert(encode_scalar(s[0] as u32).len() == width(s[0]));
    }
}

pub proof fn lemma_byte_len_bounds(s: Seq<char>)
    ensures
        s.len() <= byte_len(s) <= 4 * s.len(),
    decreases s.len(),
{
    if s.len() > 0 {
        lemma_byte_len_bounds(s.drop_last());
    }
}

/// Longer prefixes take more bytes.
pub proof fn lemma_byte_len_grows(s: Seq<char>, i: int, j: int)
    requires
        0 <= i <= j <= s.len(),
    ensures
        byte_len(s.take(i)) + (j - i) <= byte_len(s.take(j)),
{
    assert(s.take(j) =~= s.take(i) + s.subrange(i, j));
    lemma_byte_len_concat(s.take(i), s.subrange(i, j));
    lemma_byte_len_bounds(s.subrange(i, j));
}

/// The characters within the first `b` bytes take at most `b` bytes, and one more would not fit.
pub proof fn lemma_whole_chars(s: Seq<char>, b: int)
    requires
        b >= 0,
    ensures
        0 <= whole_chars(s, b) <= s.len(),
        byte_len(s.take(whole_chars(s, b))) <= b,
        whole_chars(s, b) < s.len() ==> byte_len(s.take(whole_chars(s, b) + 1)) > b,
    decreases s.len(),
{
    if s.len() == 0 || byte_len(s) <= b {
        assert(s.take(s.len() as int) =~= s);
    } else {
        let t = s.drop_last();
        lemma_whole_chars(t, b);
        let k = whole_chars(t, b);
        assert(s.take(k) =~= t.take(k));
        if k < t.len() {
            assert(s.take(k + 1) =~= t.take(k + 1));
        } else {
            assert(s.take(k + 1) =~= s);
        }
    }
}

/// A prefix is found again by its size.
pub proof fn lemma_whole_prefix(s: Seq<char>, k: int)
    requires
        0 <= k <= s.len(),
    ensures
        whole_chars(s, byte_len(s.take(k))) == k,
        char_from(s, byte_len(s.take(k))) == k,
{
    let b = byte_len(s.take(k));
    lemma_byte_len_bounds(s.take(k));
    lemma_whole_chars(s, b);
    let m = whole_chars(s, b);
    if m < k {
        lemma_byte_len_grows(s, m + 1, k);
    }
    if m > k {
        lemma_byte_len_grows(s, k, m);
    }
}

pub fn bytes_of(s: &[char]) -> (n: u128)
    ensures
        n == byte_len(s@),
{
    let mut n: u128 = 0;
    let mut i: usize = 0;
    let len: usize = s.len();
    assert(s@.take(0) =~= Seq::<char>::empty());
    while i < len
        invariant
            i <= len,
            len == s@.len(),
            n == byte_len(s@.take(i as int)),
            n <= 4 * i,
        decreases len - i,
    {
        assert(s@.take(i + 1).drop_last() =~= s@.take(i as int));
        n = n + char_width(s[i]) as u128;
        i = i + 1;
    }
    assert(s@.take(len as int) =~= s@);
    n
}

/// The characters within the first `b` bytes of a text of `total` bytes, and the bytes they take.
pub fn whole_chars_of(s: &[char], total: u128, b: u128) -> (r: (usize, u128))
    requires
        total == byte_len(s@),
    ensures
        r.0 == whole_chars(s@, b as int),
        r.0 <= s@.len(),
        r.1 == byte_len(s@.take(r.0 as int)),
        r.1 <= b,
        r.1 <= total,
{
    let mut k: usize = s.len();
    let mut at: u128 = total;
    assert(s@.take(k as int) =~= s@);
    while k > 0 && at > b
        invariant
            k <= s@.len(),
            at <= total,
            at == byte_len(s@.take(k as int)),
            whole_chars(s@.take(k as int), b as int) == whole_chars(s@, b as int),
        decreases k,
    {
        proof {
            assert(s@.take(k as int).drop_last() =~= s@.take(k - 1));
            lemma_byte_len_bounds(s@.take(k - 1));
        }
        k = k - 1;
        at = at - char_width(s[k]) as u128;
    }
    (k, at)
}

/// The first character of a text of `total` bytes that starts at byte `b` or later.
pub fn char_from_of(s: &[char], total: u128, b: u128) -> (k: usize)
    requires
        total == byte_len(s@),
    ensures
        k == char_from(s@, b as int),
        k <= s@.len(),
{
    let (k, at) = whole_chars_of(s, total, b);
    if k < s.len() && at < b { k + 1 } else { k }
}

} // verus!
