//! From the segments of a rendered prompt to runs of tokens with one role.
use crate::role::{Role, Span};
use vstd::prelude::*;

verus! {

/// The segment to go on from, moved past every segment that starts at or before byte `at`.
pub open spec fn advance(segs: Seq<(usize, Role)>, si: int, at: usize) -> int
    decreases segs.len() - si,
{
    if 0 <= si && si + 1 < segs.len() && segs[si + 1].0 <= at { advance(segs, si + 1, at) } else { si }
}

/// The segment in which token `i` starts.
pub open spec fn segment_of(segs: Seq<(usize, Role)>, offsets: Seq<(usize, usize)>, i: int) -> int
    decreases i + 1,
{
    if i < 0 { 0 } else { advance(segs, segment_of(segs, offsets, i - 1), offsets[i].0) }
}

/// The role of token `i`; a user's where there are no segments.
pub open spec fn token_role(segs: Seq<(usize, Role)>, offsets: Seq<(usize, usize)>, i: int) -> Role {
    let k = segment_of(segs, offsets, i);
    if 0 <= k < segs.len() { segs[k].1 } else { Role::User }
}

/// The runs of one role among the first `n` tokens.
pub open spec fn runs(segs: Seq<(usize, Role)>, offsets: Seq<(usize, usize)>, n: int) -> Seq<Span>
    decreases n,
{
    if n <= 0 {
        Seq::empty()
    } else {
        let prev = runs(segs, offsets, n - 1);
        let role = token_role(segs, offsets, n - 1);
        if prev.len() > 0 && prev.last().role == role && prev.last().end == n - 1 {
            prev.drop_last().push(Span { end: n as usize, ..prev.last() })
        } else {
            prev.push(Span { start: (n - 1) as usize, end: n as usize, role })
        }
    }
}

proof fn lemma_advance(segs: Seq<(usize, Role)>, si: int, at: usize)
    requires
        0 <= si,
        segs.len() == 0 ==> si == 0,
        segs.len() > 0 ==> si < segs.len(),
    ensures
        si <= advance(segs, si, at),
        segs.len() == 0 ==> advance(segs, si, at) == 0,
        segs.len() > 0 ==> advance(segs, si, at) < segs.len(),
        advance(segs, si, at) > si ==> segs[advance(segs, si, at)].0 <= at,
        advance(segs, si, at) + 1 < segs.len() ==> segs[advance(segs, si, at) + 1].0 > at,
    decreases segs.len() - si,
{
    if si + 1 < segs.len() && segs[si + 1].0 <= at {
        lemma_advance(segs, si + 1, at);
    }
}

/// Token spans of a rendered prompt: token `i` (byte range `offsets[i]`) takes the role of the
/// segment its first byte falls in; runs of one role become one span. Every token gets a role.
pub fn token_spans(segs: &[(usize, Role)], offsets: &[(usize, usize)]) -> (spans: Vec<Span>)
    ensures
        spans@ == runs(segs@, offsets@, offsets@.len() as int),
{
    let mut spans: Vec<Span> = Vec::new();
    let n: usize = offsets.len();
    let m: usize = segs.len();
    let mut si: usize = 0;
    let mut i: usize = 0;
    while i < n
        invariant
            i <= n,
            n == offsets@.len(),
            m == segs@.len(),
            m == 0 ==> si == 0,
            m > 0 ==> si < m,
            si == segment_of(segs@, offsets@, i - 1),
            spans@ == runs(segs@, offsets@, i as int),
        decreases n - i,
    {
        let start: usize = offsets[i].0;
        let ghost from = si;
        proof {
            lemma_advance(segs@, from as int, start);
        }
        while si < m && si + 1 < m && segs[si + 1].0 <= start
            invariant
                m == segs@.len(),
                m == 0 ==> si == 0,
                m > 0 ==> si < m,
                advance(segs@, from as int, start) == advance(segs@, si as int, start),
            decreases m - si,
        {
            si = si + 1;
        }
        let role: Role = if si < m { segs[si].1 } else { Role::User };
        let k: usize = spans.len();
        if k > 0 && spans[k - 1].role == role && spans[k - 1].end == i {
            let last = spans[k - 1];
            spans.set(k - 1, Span { start: last.start, end: i + 1, role: last.role });
            assert(spans@ =~= runs(segs@, offsets@, i + 1));
        } else {
            spans.push(Span { start: i, end: i + 1, role });
            assert(spans@ =~= runs(segs@, offsets@, i + 1));
        }
        i = i + 1;
    }
    spans
}

/// The spans cover the tokens one after the other: the first starts at 0, each starts where the
/// one before it ends, with another role, and the last ends at the last token; every token of a
/// span has the span's role.
pub proof fn law_spans_cover_all_tokens(
    segs: Seq<(usize, Role)>,
    offsets: Seq<(usize, usize)>,
    n: int,
)
    requires
        0 <= n <= offsets.len(),
        offsets.len() <= usize::MAX,
    ensures
        ({
            let r = runs(segs, offsets, n);
            &&& n == 0 <==> r.len() == 0
            &&& n > 0 ==> r[0].start == 0 && r.last().end == n
            &&& forall|i: int| #![trigger r[i]] 0 <= i < r.len() ==> r[i].start < r[i].end <= n
            &&& forall|i: int, j: int| #![trigger r[i], r[j]]
                0 <= i && j == i + 1 && j < r.len() ==> r[i].end == r[j].start && r[i].role
                    != r[j].role
            &&& forall|i: int, t: int| #![trigger r[i].holds(t)]
                0 <= i < r.len() && r[i].holds(t) ==> r[i].role == token_role(segs, offsets, t)
        }),
    decreases n,
{
    if n > 0 {
        law_spans_cover_all_tokens(segs, offsets, n - 1);
        let p = runs(segs, offsets, n - 1);
        let r = runs(segs, offsets, n);
        let role = token_role(segs, offsets, n - 1);
        assert forall|i: int, t: int| #![trigger r[i].holds(t)]
            0 <= i < r.len() && r[i].holds(t) implies r[i].role == token_role(segs, offsets, t) by {
            if i < p.len() && t < n - 1 {
                assert(p[i].holds(t));
            }
        }
    }
}

/// With segments in order from byte 0 and tokens in order, a token has the role of the last
/// segment that starts at or before its first byte.
pub proof fn law_token_takes_segment_of_first_byte(
    segs: Seq<(usize, Role)>,
    offsets: Seq<(usize, usize)>,
    i: int,
)
    requires
        0 <= i < offsets.len(),
        segs.len() > 0,
        segs[0].0 == 0,
        forall|a: int, b: int| 0 <= a < b < segs.len() ==> (#[trigger] segs[a]).0 <= (#[trigger] segs[b]).0,
        forall|a: int, b: int|
            0 <= a < b < offsets.len() ==> (#[trigger] offsets[a]).0 <= (#[trigger] offsets[b]).0,
    ensures
        ({
            let k = segment_of(segs, offsets, i);
            &&& 0 <= k < segs.len()
            &&& segs[k].0 <= offsets[i].0
            &&& forall|j: int| k < j < segs.len() ==> (#[trigger] segs[j]).0 > offsets[i].0
            &&& token_role(segs, offsets, i) == segs[k].1
        }),
    decreases i,
{
    let prev = segment_of(segs, offsets, i - 1);
    if i > 0 {
        law_token_takes_segment_of_first_byte(segs, offsets, i - 1);
        assert(offsets[i - 1].0 <= offsets[i].0);
    }
    lemma_advance(segs, prev, offsets[i].0);
    let k = segment_of(segs, offsets, i);
    assert forall|j: int| k < j < segs.len() implies (#[trigger] segs[j]).0 > offsets[i].0 by {
        if j > k + 1 {
            assert(segs[k + 1].0 <= segs[j].0);
        }
    }
}

/// How many pads stand before position `i`.
pub open spec fn pads_before(ids: Seq<u32>, pad: u32, i: int) -> int
    decreases i,
{
    if i <= 0 {
        0
    } else {
        pads_before(ids, pad, i - 1) + if ids[i - 1] == pad { 1int } else { 0int }
    }
}

/// The rows of pad number `k`: its size, one without a size.
pub open spec fn pad_rows_of(sizes: Seq<usize>, k: int) -> int {
    if 0 <= k < sizes.len() { sizes[k] as int } else { 1 }
}

/// By how much position `i` moves when every pad before it becomes its rows.
pub open spec fn shift_at(ids: Seq<u32>, pad: u32, sizes: Seq<usize>, i: int) -> int
    decreases i,
{
    if i <= 0 {
        0
    } else {
        shift_at(ids, pad, sizes, i - 1) + if ids[i - 1] == pad {
            pad_rows_of(sizes, pads_before(ids, pad, i - 1)) - 1
        } else {
            0
        }
    }
}

/// Spans after the image pads were expanded.
pub open spec fn expanded(spans: Seq<Span>, ids: Seq<u32>, pad: u32, sizes: Seq<usize>) -> Seq<Span> {
    Seq::new(
        spans.len(),
        |i: int|
            Span {
                start: (spans[i].start + shift_at(ids, pad, sizes, spans[i].start as int)) as usize,
                end: (spans[i].end + shift_at(ids, pad, sizes, spans[i].end as int)) as usize,
                role: spans[i].role,
            },
    )
}

proof fn lemma_shift_grows(ids: Seq<u32>, pad: u32, sizes: Seq<usize>, a: int, b: int)
    requires
        0 <= a <= b <= ids.len(),
        forall|k: int| 0 <= k < sizes.len() ==> (#[trigger] sizes[k]) >= 1,
    ensures
        0 <= shift_at(ids, pad, sizes, a) <= shift_at(ids, pad, sizes, b),
        0 <= pads_before(ids, pad, a) <= a,
    decreases b,
{
    if a < b {
        lemma_shift_grows(ids, pad, sizes, a, b - 1);
        lemma_pads_bound(ids, pad, b - 1);
    } else if b > 0 {
        lemma_shift_grows(ids, pad, sizes, b - 1, b - 1);
    }
}

pub proof fn lemma_pads_bound(ids: Seq<u32>, pad: u32, i: int)
    requires
        0 <= i,
    ensures
        0 <= pads_before(ids, pad, i) <= i,
    decreases i,
{
    if i > 0 {
        lemma_pads_bound(ids, pad, i - 1);
    }
}

/// Spans after the image pads were expanded: a pad token at row `r` of the unexpanded ids
/// became `n` rows, so every span boundary after it moves by `n - 1`.
pub fn expand_spans(spans: &[Span], ids: &[u32], pad: u32, sizes: &[usize]) -> (out: Vec<Span>)
    requires
        forall|k: int| 0 <= k < sizes@.len() ==> (#[trigger] sizes@[k]) >= 1,
        ids@.len() + shift_at(ids@, pad, sizes@, ids@.len() as int) <= usize::MAX,
        forall|i: int|
            0 <= i < spans@.len() ==> (#[trigger] spans@[i]).start <= ids@.len() && spans@[i].end
                <= ids@.len(),
    ensures
        out@ == expanded(spans@, ids@, pad, sizes@),
{
    let n: usize = ids.len();
    let mut shift: Vec<usize> = Vec::new();
    let mut acc: usize = 0;
    let mut k: usize = 0;
    let mut i: usize = 0;
    while i < n
        invariant
            i <= n,
            n == ids@.len(),
            k <= i,
            k == pads_before(ids@, pad, i as int),
            acc == shift_at(ids@, pad, sizes@, i as int),
            forall|q: int| 0 <= q < sizes@.len() ==> (#[trigger] sizes@[q]) >= 1,
            n + shift_at(ids@, pad, sizes@, n as int) <= usize::MAX,
            shift@.len() == i,
            forall|q: int| 0 <= q < i ==> #[trigger] shift@[q] == shift_at(ids@, pad, sizes@, q),
        decreases n - i,
    {
        shift.push(acc);
        proof {
            lemma_shift_grows(ids@, pad, sizes@, i + 1, n as int);
        }
        if ids[i] == pad {
            let rows: usize = if k < sizes.len() { sizes[k] } else { 1 };
            acc = acc + (rows - 1);
            k = k + 1;
        }
        i = i + 1;
    }
    shift.push(acc);
    let mut out: Vec<Span> = Vec::new();
    let m: usize = spans.len();
    let mut j: usize = 0;
    while j < m
        invariant
            j <= m,
            m == spans@.len(),
            n == ids@.len(),
            shift@.len() == n + 1,
            forall|q: int| 0 <= q <= n ==> #[trigger] shift@[q] == shift_at(ids@, pad, sizes@, q),
            forall|q: int| 0 <= q < sizes@.len() ==> (#[trigger] sizes@[q]) >= 1,
            n + shift_at(ids@, pad, sizes@, n as int) <= usize::MAX,
            forall|q: int|
                0 <= q < spans@.len() ==> (#[trigger] spans@[q]).start <= n && spans@[q].end <= n,
            out@ == expanded(spans@, ids@, pad, sizes@).subrange(0, j as int),
        decreases m - j,
    {
        let s = spans[j];
        proof {
            lemma_shift_grows(ids@, pad, sizes@, s.start as int, n as int);
            lemma_shift_grows(ids@, pad, sizes@, s.end as int, n as int);
        }
        out.push(Span { start: s.start + shift[s.start], end: s.end + shift[s.end], role: s.role });
        assert(out@ =~= expanded(spans@, ids@, pad, sizes@).subrange(0, j + 1));
        j = j + 1;
    }
    assert(expanded(spans@, ids@, pad, sizes@).subrange(0, m as int) =~= expanded(
        spans@,
        ids@,
        pad,
        sizes@,
    ));
    out
}

/// Whether spans follow each other from 0 to `n`.
pub open spec fn tiles(spans: Seq<Span>, n: int) -> bool {
    &&& spans.len() == 0 ==> n == 0
    &&& spans.len() > 0 ==> spans[0].start == 0 && spans.last().end == n
    &&& forall|i: int| 0 <= i < spans.len() ==> (#[trigger] spans[i]).start <= spans[i].end <= n
    &&& forall|i: int, j: int|
        #![trigger spans[i], spans[j]]
        0 <= i && j == i + 1 && j < spans.len() ==> spans[i].end == spans[j].start
}

/// The rows of token `i`: those of its image where it is a pad, else one.
pub open spec fn rows_at(ids: Seq<u32>, pad: u32, sizes: Seq<usize>, i: int) -> int {
    if ids[i] == pad { pad_rows_of(sizes, pads_before(ids, pad, i)) } else { 1 }
}

/// The rows of the tokens from `a` up to `b`, added up.
pub open spec fn rows_between(ids: Seq<u32>, pad: u32, sizes: Seq<usize>, a: int, b: int) -> int
    decreases b - a,
{
    if a >= b { 0 } else { rows_between(ids, pad, sizes, a, b - 1) + rows_at(ids, pad, sizes, b - 1) }
}

/// By how much the first `k` images are longer than their pads, added up.
pub open spec fn rows_gained(sizes: Seq<usize>, k: int) -> int
    decreases k,
{
    if k <= 0 { 0 } else { rows_gained(sizes, k - 1) + sizes[k - 1] - 1 }
}

proof fn lemma_rows_between(ids: Seq<u32>, pad: u32, sizes: Seq<usize>, a: int, b: int)
    requires
        0 <= a <= b <= ids.len(),
    ensures
        rows_between(ids, pad, sizes, a, b) == b - a + shift_at(ids, pad, sizes, b) - shift_at(
            ids,
            pad,
            sizes,
            a,
        ),
    decreases b - a,
{
    if a < b {
        lemma_rows_between(ids, pad, sizes, a, b - 1);
    }
}

proof fn lemma_rows_gained(ids: Seq<u32>, pad: u32, sizes: Seq<usize>, n: int)
    requires
        0 <= n <= ids.len(),
        pads_before(ids, pad, n) <= sizes.len(),
    ensures
        shift_at(ids, pad, sizes, n) == rows_gained(sizes, pads_before(ids, pad, n)),
    decreases n,
{
    if n > 0 {
        lemma_pads_bound(ids, pad, n - 1);
        lemma_rows_gained(ids, pad, sizes, n - 1);
    }
}

/// Spans that cover a prompt still do when its pads are expanded: as many, with the same roles, one
/// behind the other from 0 to the prompt's length and what its images are longer than their pads;
/// and each is as long as the rows of its tokens.
pub proof fn law_expanded_spans_cover_the_expanded_prompt(
    spans: Seq<Span>,
    ids: Seq<u32>,
    pad: u32,
    sizes: Seq<usize>,
)
    requires
        tiles(spans, ids.len() as int),
        forall|k: int| 0 <= k < sizes.len() ==> (#[trigger] sizes[k]) >= 1,
        pads_before(ids, pad, ids.len() as int) == sizes.len(),
        ids.len() + rows_gained(sizes, sizes.len() as int) <= usize::MAX,
    ensures
        ({
            let e = expanded(spans, ids, pad, sizes);
            &&& e.len() == spans.len()
            &&& tiles(e, ids.len() + rows_gained(sizes, sizes.len() as int))
            &&& forall|i: int|
                0 <= i < spans.len() ==> (#[trigger] e[i]).role == spans[i].role && e[i].end - e[i].start
                    == rows_between(ids, pad, sizes, spans[i].start as int, spans[i].end as int)
        }),
{
    let e = expanded(spans, ids, pad, sizes);
    let n = ids.len() as int;
    lemma_rows_gained(ids, pad, sizes, n);
    assert forall|i: int| 0 <= i < spans.len() implies (#[trigger] e[i]).role == spans[i].role
        && e[i].end - e[i].start == rows_between(
        ids,
        pad,
        sizes,
        spans[i].start as int,
        spans[i].end as int,
    ) && e[i].start <= e[i].end <= n + rows_gained(sizes, sizes.len() as int) && e[i].start
        == spans[i].start + shift_at(ids, pad, sizes, spans[i].start as int) && e[i].end
        == spans[i].end + shift_at(ids, pad, sizes, spans[i].end as int) by {
        let s = spans[i];
        lemma_shift_grows(ids, pad, sizes, s.start as int, s.end as int);
        lemma_shift_grows(ids, pad, sizes, s.end as int, n);
        lemma_rows_between(ids, pad, sizes, s.start as int, s.end as int);
    }
    assert forall|i: int, j: int|
        #![trigger e[i], e[j]]
        0 <= i && j == i + 1 && j < e.len() implies e[i].end == e[j].start by {
        assert(spans[i].end == spans[j].start);
    }
    if spans.len() > 0 {
        assert(e[0].start == spans[0].start + shift_at(ids, pad, sizes, 0));
        assert(e[e.len() - 1].end == n + shift_at(ids, pad, sizes, n));
    }
}

/// Without segments every token is the user's.
pub proof fn law_tokens_without_segments_are_the_users(offsets: Seq<(usize, usize)>, i: int)
    ensures
        token_role(Seq::empty(), offsets, i) == Role::User,
{
}

/// A position moves by what the image of every pad before it is longer than the pad.
pub proof fn law_pads_move_what_follows(ids: Seq<u32>, pad: u32, sizes: Seq<usize>, i: int)
    requires
        0 <= i < ids.len(),
    ensures
        shift_at(ids, pad, sizes, 0) == 0,
        pads_before(ids, pad, 0) == 0,
        ids[i] != pad ==> shift_at(ids, pad, sizes, i + 1) == shift_at(ids, pad, sizes, i) && pads_before(
            ids,
            pad,
            i + 1,
        ) == pads_before(ids, pad, i),
        ids[i] == pad ==> pads_before(ids, pad, i + 1) == pads_before(ids, pad, i) + 1,
        ids[i] == pad && 0 <= pads_before(ids, pad, i) < sizes.len() ==> shift_at(ids, pad, sizes, i + 1)
            == shift_at(ids, pad, sizes, i) + sizes[pads_before(ids, pad, i)] - 1,
        ids[i] == pad && pads_before(ids, pad, i) >= sizes.len() ==> shift_at(ids, pad, sizes, i + 1)
            == shift_at(ids, pad, sizes, i),
{
}

} // verus!
