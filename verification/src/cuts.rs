//! However the model's text is cut into pieces, the same calls and the same text come out of the
//! stream, but for white space behind a call.
use crate::text::{find_from, found_at, lemma_find_from, trim, trim_end, trim_start, white};
use crate::tools::{
    call_in, last_text, lemma_partial_open, lemma_settled, one_more, partial_open, run, settled,
    CallView, OutView, Stepped, StreamView, ToolView,
};
use vstd::prelude::*;

verus! {

/// A text without its white space.
pub open spec fn inked(s: Seq<char>) -> Seq<char>
    decreases s.len(),
{
    if s.len() == 0 {
        Seq::empty()
    } else if white(s.last()) {
        inked(s.drop_last())
    } else {
        inked(s.drop_last()).push(s.last())
    }
}

/// A part of what a stream gives out.
pub enum Told {
    /// A letter, by its code point.
    Letter(int),
    Call(CallView),
}

/// The letters of a text.
pub open spec fn letters(s: Seq<char>) -> Seq<Told> {
    Seq::new(s.len(), |i: int| Told::Letter(s[i] as int))
}

/// Everything that was given out, letter by letter and call by call; with or without the white
/// space.
pub open spec fn told(outs: Seq<OutView>, whole: bool) -> Seq<Told>
    decreases outs.len(),
{
    if outs.len() == 0 {
        Seq::empty()
    } else {
        let before = told(outs.drop_last(), whole);
        match outs.last() {
            OutView::Text(t) => before + letters(if whole { t } else { inked(t) }),
            OutView::Call(c) => before.push(Told::Call(c)),
        }
    }
}

/// A stream that takes more text.
pub open spec fn fed(s: StreamView, tools: Seq<ToolView>, more: Seq<char>) -> Stepped {
    run(StreamView { buf: s.buf + more, ..s }, tools, Seq::empty())
}

proof fn lemma_inked_concat(a: Seq<char>, b: Seq<char>)
    ensures
        inked(a + b) == inked(a) + inked(b),
    decreases b.len(),
{
    if b.len() == 0 {
        assert(a + b =~= a);
        assert(inked(a) + inked(b) =~= inked(a));
    } else {
        lemma_inked_concat(a, b.drop_last());
        assert((a + b).drop_last() =~= a + b.drop_last());
        assert((a + b).last() == b.last());
        if !white(b.last()) {
            assert((inked(a) + inked(b.drop_last())).push(b.last()) =~= inked(a) + inked(
                b.drop_last(),
            ).push(b.last()));
        }
    }
}

proof fn lemma_inked_trim_end(s: Seq<char>)
    ensures
        inked(trim_end(s)) == inked(s),
    decreases s.len(),
{
    if s.len() > 0 && white(s.last()) {
        lemma_inked_trim_end(s.drop_last());
    }
}

proof fn lemma_inked_trim_start(s: Seq<char>)
    ensures
        inked(trim_start(s)) == inked(s),
    decreases s.len(),
{
    if s.len() > 0 && white(s[0]) {
        let rest = s.subrange(1, s.len() as int);
        lemma_inked_trim_start(rest);
        let first = seq![s[0]];
        assert(first + rest =~= s);
        lemma_inked_concat(first, rest);
        assert(first.drop_last() =~= Seq::<char>::empty());
        assert(inked(first) =~= Seq::<char>::empty()) by {
            assert(first.last() == s[0]);
            assert(inked(first) == inked(first.drop_last()));
        }
        assert(inked(first) + inked(rest) =~= inked(rest));
    }
}

proof fn lemma_inked_trim(s: Seq<char>)
    ensures
        inked(trim(s)) == inked(s),
{
    lemma_inked_trim_start(s);
    lemma_inked_trim_end(trim_start(s));
}

/// A text that ends in a letter keeps all of itself before a text that is trimmed.
proof fn lemma_trim_end_concat(e: Seq<char>, h: Seq<char>)
    requires
        e.len() > 0,
        !white(e.last()),
    ensures
        trim_end(e + h) == e + trim_end(h),
    decreases h.len(),
{
    if h.len() == 0 {
        assert(e + h =~= e);
        assert(e + trim_end(h) =~= e);
    } else {
        assert((e + h).last() == h.last());
        if white(h.last()) {
            assert((e + h).drop_last() =~= e + h.drop_last());
            lemma_trim_end_concat(e, h.drop_last());
        }
    }
}

/// What is left of a trimmed text is a beginning of it that ends in a letter.
proof fn lemma_trim_end_prefix(s: Seq<char>)
    ensures
        trim_end(s).len() <= s.len(),
        trim_end(s) == s.subrange(0, trim_end(s).len() as int),
        trim_end(s).len() > 0 ==> !white(trim_end(s).last()),
    decreases s.len(),
{
    if s.len() > 0 && white(s.last()) {
        lemma_trim_end_prefix(s.drop_last());
        let n = trim_end(s).len() as int;
        assert(s.drop_last().subrange(0, n) =~= s.subrange(0, n));
    } else {
        assert(s.subrange(0, s.len() as int) =~= s);
    }
}

proof fn lemma_letters_concat(a: Seq<char>, b: Seq<char>)
    ensures
        letters(a + b) == letters(a) + letters(b),
{
    assert(letters(a + b) =~= letters(a) + letters(b));
}

proof fn lemma_told_concat(a: Seq<OutView>, b: Seq<OutView>, whole: bool)
    ensures
        told(a + b, whole) == told(a, whole) + told(b, whole),
    decreases b.len(),
{
    if b.len() == 0 {
        assert(a + b =~= a);
        assert(told(a, whole) + told(b, whole) =~= told(a, whole));
    } else {
        lemma_told_concat(a, b.drop_last(), whole);
        assert((a + b).drop_last() =~= a + b.drop_last());
        assert((a + b).last() == b.last());
        assert(told(a + b, whole) =~= told(a, whole) + told(b, whole));
    }
}

proof fn lemma_told_one(t: Seq<char>, whole: bool)
    ensures
        told(seq![OutView::Text(t)], whole) == letters(if whole { t } else { inked(t) }),
{
    let o = seq![OutView::Text(t)];
    assert(o.drop_last() =~= Seq::<OutView>::empty());
    assert(o.last() == OutView::Text(t));
    assert(told(o.drop_last(), whole) =~= Seq::<Told>::empty());
    assert(told(o, whole) =~= letters(if whole { t } else { inked(t) }));
}

/// What was given out before stays in front of what a stream gives out.
proof fn lemma_run_outs(s: StreamView, tools: Seq<ToolView>, outs: Seq<OutView>)
    ensures
        run(s, tools, outs).state == run(s, tools, Seq::empty()).state,
        run(s, tools, outs).outs == outs + run(s, tools, Seq::empty()).outs,
    decreases s.buf.len(),
{
    let none = Seq::<OutView>::empty();
    let n = s.buf.len() as int;
    assert(outs + none =~= outs);
    if s.in_call {
        if let Some(p) = find_from(s.buf, "</tool_call>"@, 0) {
            let block = s.buf.subrange(0, p);
            let rest = s.buf.subrange(p + "</tool_call>"@.len(), n);
            if rest.len() < s.buf.len() {
                let (t, o) = match call_in(block, tools) {
                    Some(c) => (
                        StreamView { buf: rest, in_call: false, n_calls: one_more(s.n_calls) },
                        OutView::Call(c),
                    ),
                    None => (
                        StreamView { buf: rest, in_call: false, ..s },
                        OutView::Text("<tool_call>"@ + block + "</tool_call>"@),
                    ),
                };
                lemma_run_outs(t, tools, outs.push(o));
                lemma_run_outs(t, tools, none.push(o));
                let more = run(t, tools, none).outs;
                assert(outs.push(o) + more =~= outs + (none.push(o) + more));
            }
        }
    } else {
        match find_from(s.buf, "<tool_call>"@, 0) {
            Some(p) => {
                let head = s.buf.subrange(0, p);
                let text = if s.n_calls == 0 { trim_end(head) } else { trim(head) };
                let rest = s.buf.subrange(p + "<tool_call>"@.len(), n);
                if rest.len() < s.buf.len() {
                    let t = StreamView { buf: rest, in_call: true, ..s };
                    let o = OutView::Text(text);
                    let more = run(t, tools, none).outs;
                    if text.len() > 0 {
                        lemma_run_outs(t, tools, outs.push(o));
                        lemma_run_outs(t, tools, none.push(o));
                        assert(outs.push(o) + more =~= outs + (none.push(o) + more));
                    } else {
                        lemma_run_outs(t, tools, outs);
                        assert(none + more =~= more);
                    }
                }
            },
            None => {
                let o = OutView::Text(s.buf.subrange(0, settled(s.buf)));
                assert(outs.push(o) =~= outs + none.push(o));
            },
        }
    }
}

/// A tag that stands in the first part of a text stands there in the whole of it.
proof fn lemma_found_in_part(x: Seq<char>, b: Seq<char>, pat: Seq<char>)
    requires
        find_from(x, pat, 0) is Some,
    ensures
        find_from(x + b, pat, 0) == find_from(x, pat, 0),
{
    lemma_find_from(x, pat, 0);
    lemma_find_from(x + b, pat, 0);
    let p = find_from(x, pat, 0)->0;
    assert((x + b).subrange(p, p + pat.len()) =~= x.subrange(p, p + pat.len()));
    assert(found_at(x + b, pat, p));
    let q = find_from(x + b, pat, 0)->0;
    if q < p {
        assert((x + b).subrange(q, q + pat.len()) =~= x.subrange(q, q + pat.len()));
        assert(found_at(x, pat, q));
    }
}

/// Whether the last `m` characters of `s` begin a tag.
pub open spec fn ends_in(s: Seq<char>, m: int) -> bool {
    0 <= m <= s.len() && m <= 11 && s.subrange(s.len() - m, s.len() as int) == "<tool_call>"@.subrange(
        0,
        m,
    )
}

proof fn lemma_partial_is_longest(s: Seq<char>, n: int)
    requires
        0 <= n <= 10,
    ensures
        ends_in(s, partial_open(s, n)),
        forall|m: int| 0 <= m <= n && #[trigger] ends_in(s, m) ==> m <= partial_open(s, n),
    decreases n,
{
    reveal_strlit("<tool_call>");
    lemma_partial_open(s, n);
    if n > 0 {
        lemma_partial_is_longest(s, n - 1);
        assert(partial_open(s, n) == n ==> ends_in(s, n));
        assert forall|m: int| 0 <= m <= n && #[trigger] ends_in(s, m) implies m <= partial_open(
            s,
            n,
        ) by {
            if m == n {
                assert(partial_open(s, n) == n);
            }
        }
    } else {
        assert(s.subrange(s.len() as int, s.len() as int) =~= "<tool_call>"@.subrange(0, 0));
    }
}

/// What of a text without a tag is given out, and what is held back.
proof fn lemma_settled_part(x: Seq<char>)
    ensures
        0 <= settled(x) <= x.len() - partial_open(x, 10),
        settled(x) > 0 ==> !white(x[settled(x) - 1]),
{
    lemma_settled(x);
    lemma_partial_open(x, 10);
    let cut = x.subrange(0, x.len() - partial_open(x, 10));
    lemma_trim_end_prefix(cut);
    let n = settled(x);
    if n > 0 {
        assert(trim_end(cut).last() == cut.subrange(0, n)[n - 1]);
    }
}

/// No tag that the rest of the text completes begins in what was given out before.
proof fn lemma_no_tag_in_settled(x: Seq<char>, b: Seq<char>, i: int, m: int)
    requires
        find_from(x, "<tool_call>"@, 0) is None,
        0 <= i < settled(x),
        0 <= m <= 11,
        i + m <= x.len() + b.len(),
        i + m >= x.len() || m == 11,
    ensures
        (x + b).subrange(i, i + m) != "<tool_call>"@.subrange(0, m),
{
    reveal_strlit("<tool_call>");
    let tag = "<tool_call>"@;
    lemma_settled_part(x);
    lemma_find_from(x, tag, 0);
    lemma_partial_is_longest(x, 10);
    if (x + b).subrange(i, i + m) != tag.subrange(0, m) {
    } else if i + 11 <= x.len() {
        assert(m == 11);
        assert(x.subrange(i, i + 11) =~= (x + b).subrange(i, i + m));
        assert(tag.subrange(0, 11) =~= tag);
        assert(found_at(x, tag, i));
    } else {
        let k = x.len() - i;
        assert forall|j: int| 0 <= j < k implies x.subrange(i, x.len() as int)[j]
            == tag.subrange(0, k)[j] by {
            assert((x + b).subrange(i, i + m)[j] == tag.subrange(0, m)[j]);
        }
        assert(x.subrange(x.len() - k, x.len() as int) =~= tag.subrange(0, k));
        assert(ends_in(x, k));
    }
}

/// A tag is found where it stands in what was held back and what follows.
proof fn lemma_find_behind_settled(x: Seq<char>, b: Seq<char>)
    requires
        find_from(x, "<tool_call>"@, 0) is None,
    ensures
        ({
            let y = x.subrange(settled(x), x.len() as int) + b;
            match find_from(y, "<tool_call>"@, 0) {
                Some(p) => find_from(x + b, "<tool_call>"@, 0) == Some(p + settled(x)),
                None => find_from(x + b, "<tool_call>"@, 0) is None,
            }
        }),
{
    reveal_strlit("<tool_call>");
    let tag = "<tool_call>"@;
    let n = settled(x);
    lemma_settled_part(x);
    lemma_partial_open(x, 10);
    let y = x.subrange(n, x.len() as int) + b;
    lemma_find_from(y, tag, 0);
    lemma_find_from(x + b, tag, 0);
    assert forall|i: int| n <= i implies #[trigger] found_at(x + b, tag, i) == found_at(
        y,
        tag,
        i - n,
    ) by {
        if i + 11 <= x.len() + b.len() {
            assert((x + b).subrange(i, i + 11) =~= y.subrange(i - n, i - n + 11));
        }
    }
    assert forall|i: int| 0 <= i < n implies !#[trigger] found_at(x + b, tag, i) by {
        if found_at(x + b, tag, i) {
            assert(tag.subrange(0, 11) =~= tag);
            lemma_no_tag_in_settled(x, b, i, 11);
        }
    }
    if let Some(p) = find_from(y, tag, 0) {
        assert(found_at(x + b, tag, p + n));
        let q = find_from(x + b, tag, 0)->0;
        if q < p + n {
            assert(found_at(y, tag, q - n));
        }
    } else if let Some(q) = find_from(x + b, tag, 0) {
        assert(found_at(y, tag, q - n));
    }
}

/// What is held back of the whole text is what is held back of its rest.
proof fn lemma_settled_behind_settled(x: Seq<char>, b: Seq<char>)
    requires
        find_from(x, "<tool_call>"@, 0) is None,
    ensures
        settled(x + b) == settled(x) + settled(x.subrange(settled(x), x.len() as int) + b),
{
    reveal_strlit("<tool_call>");
    let tag = "<tool_call>"@;
    let n = settled(x);
    lemma_settled_part(x);
    lemma_partial_open(x, 10);
    let e = x.subrange(0, n);
    let y = x.subrange(n, x.len() as int) + b;
    let z = x + b;
    assert(z =~= e + y);
    lemma_partial_is_longest(y, 10);
    lemma_partial_is_longest(z, 10);
    lemma_partial_open(y, 10);
    lemma_partial_open(z, 10);
    let ky = partial_open(y, 10);
    let kz = partial_open(z, 10);
    assert(z.subrange(z.len() - ky, z.len() as int) =~= y.subrange(y.len() - ky, y.len() as int));
    assert(ends_in(z, ky));
    if kz > y.len() {
        lemma_no_tag_in_settled(x, b, z.len() - kz, kz);
    }
    assert(z.subrange(z.len() - kz, z.len() as int) =~= y.subrange(y.len() - kz, y.len() as int));
    assert(ends_in(y, kz));
    let hy = y.subrange(0, y.len() - ky);
    assert(z.subrange(0, z.len() - kz) =~= e + hy);
    if n > 0 {
        lemma_trim_end_concat(e, hy);
    } else {
        assert(e + hy =~= hy);
    }
}

/// What stands for a text, with or without its white space.
proof fn lemma_told_texts(e: Seq<char>, h: Seq<char>, whole: bool)
    ensures
        told(seq![OutView::Text(e + h)], whole) == told(seq![OutView::Text(e)], whole) + told(
            seq![OutView::Text(h)],
            whole,
        ),
{
    lemma_told_one(e + h, whole);
    lemma_told_one(e, whole);
    lemma_told_one(h, whole);
    lemma_inked_concat(e, h);
    lemma_letters_concat(e, h);
    lemma_letters_concat(inked(e), inked(h));
}

/// An empty text tells nothing.
proof fn lemma_told_nothing(whole: bool)
    ensures
        told(seq![OutView::Text(Seq::empty())], whole) == Seq::<Told>::empty(),
        told(Seq::<OutView>::empty(), whole) == Seq::<Told>::empty(),
{
    lemma_told_one(Seq::empty(), whole);
    assert(inked(Seq::empty()) =~= Seq::<char>::empty());
    assert(letters(Seq::empty()) =~= Seq::<Told>::empty());
}

/// The text before a tag, given out in one piece or in two.
proof fn lemma_head_told(e: Seq<char>, h: Seq<char>, n_calls: usize, whole: bool)
    requires
        e.len() > 0,
        !white(e.last()),
        whole ==> n_calls == 0,
    ensures
        ({
            let all = if n_calls == 0 { trim_end(e + h) } else { trim(e + h) };
            let rest = if n_calls == 0 { trim_end(h) } else { trim(h) };
            told(seq![OutView::Text(all)], whole) == told(seq![OutView::Text(e)], whole) + told(
                seq![OutView::Text(rest)],
                whole,
            )
        }),
{
    lemma_told_texts(e, h, false);
    if n_calls == 0 {
        lemma_trim_end_concat(e, h);
        lemma_told_texts(e, trim_end(h), whole);
    } else {
        lemma_inked_trim(e + h);
        lemma_inked_trim(h);
        lemma_told_one(trim(e + h), false);
        lemma_told_one(trim(h), false);
        lemma_told_one(e + h, false);
        lemma_told_one(h, false);
    }
}

/// The text that is given out before a tag, if there is any.
pub open spec fn head_outs(text: Seq<char>) -> Seq<OutView> {
    if text.len() > 0 { seq![OutView::Text(text)] } else { Seq::empty() }
}

proof fn lemma_head_outs(text: Seq<char>, whole: bool)
    ensures
        told(head_outs(text), whole) == told(seq![OutView::Text(text)], whole),
{
    lemma_told_nothing(whole);
    if text.len() == 0 {
        assert(text =~= Seq::empty());
    }
}

/// A cut behind a text without a tag.
proof fn lemma_cut_in_text(s: StreamView, tools: Seq<ToolView>, b: Seq<char>, whole: bool)
    requires
        !s.in_call,
        find_from(s.buf, "<tool_call>"@, 0) is None,
        whole ==> s.n_calls == 0,
    ensures
        ({
            let all = fed(s, tools, b);
            let first = run(s, tools, Seq::empty());
            let second = fed(first.state, tools, b);
            &&& first.state.n_calls == s.n_calls
            &&& all.state == second.state
            &&& told(all.outs, whole) == told(first.outs, whole) + told(second.outs, whole)
        }),
{
    reveal_strlit("<tool_call>");
    let x = s.buf;
    let n = settled(x);
    lemma_settled_part(x);
    lemma_partial_open(x, 10);
    lemma_told_nothing(whole);
    let none = Seq::<OutView>::empty();
    let all = fed(s, tools, b);
    let first = run(s, tools, none);
    let second = fed(first.state, tools, b);
    if n == 0 {
        assert(first.state == s);
        assert(told(none, whole) + told(all.outs, whole) =~= told(all.outs, whole));
    } else {
        let e = x.subrange(0, n);
        let y = x.subrange(n, x.len() as int) + b;
        let z = x + b;
        assert(z =~= e + y);
        assert(first.outs =~= seq![OutView::Text(e)]);
        lemma_find_behind_settled(x, b);
        lemma_find_from(y, "<tool_call>"@, 0);
        match find_from(y, "<tool_call>"@, 0) {
            Some(p) => {
                let h = y.subrange(0, p);
                assert(z.subrange(0, p + n) =~= e + h);
                let rest = y.subrange(p + 11, y.len() as int);
                assert(z.subrange(p + n + 11, z.len() as int) =~= rest);
                let t = StreamView { buf: rest, in_call: true, ..s };
                let text = if s.n_calls == 0 { trim_end(e + h) } else { trim(e + h) };
                let less = if s.n_calls == 0 { trim_end(h) } else { trim(h) };
                let more = run(t, tools, none).outs;
                lemma_run_outs(t, tools, head_outs(text));
                lemma_run_outs(t, tools, head_outs(less));
                assert(none.push(OutView::Text(text)) =~= seq![OutView::Text(text)]);
                assert(none.push(OutView::Text(less)) =~= seq![OutView::Text(less)]);
                assert(all == run(t, tools, head_outs(text)));
                assert(second == run(t, tools, head_outs(less)));
                lemma_told_concat(head_outs(text), more, whole);
                lemma_told_concat(head_outs(less), more, whole);
                lemma_head_outs(text, whole);
                lemma_head_outs(less, whole);
                lemma_head_told(e, h, s.n_calls, whole);
                assert(told(first.outs, whole) + (told(head_outs(less), whole) + told(more, whole))
                    =~= told(first.outs, whole) + told(head_outs(less), whole) + told(more, whole));
            },
            None => {
                lemma_settled_behind_settled(x, b);
                lemma_settled_part(y);
                lemma_partial_open(y, 10);
                let k = settled(y);
                let h = y.subrange(0, k);
                assert(z.subrange(0, n + k) =~= e + h);
                assert(z.subrange(n + k, z.len() as int) =~= y.subrange(k, y.len() as int));
                assert(y.subrange(0, y.len() as int) =~= y);
                assert(all.outs =~= seq![OutView::Text(e + h)]);
                assert(second.outs =~= head_outs(h));
                lemma_head_outs(h, whole);
                lemma_told_texts(e, h, whole);
            },
        }
    }
}

/// A cut anywhere.
proof fn lemma_cut(s: StreamView, tools: Seq<ToolView>, b: Seq<char>, whole: bool)
    requires
        whole ==> run(s, tools, Seq::empty()).state.n_calls == 0,
    ensures
        ({
            let all = fed(s, tools, b);
            let first = run(s, tools, Seq::empty());
            let second = fed(first.state, tools, b);
            &&& all.state == second.state
            &&& told(all.outs, whole) == told(first.outs, whole) + told(second.outs, whole)
        }),
    decreases s.buf.len(),
{
    reveal_strlit("<tool_call>");
    reveal_strlit("</tool_call>");
    let none = Seq::<OutView>::empty();
    let x = s.buf;
    let n = x.len() as int;
    let tag = if s.in_call { "</tool_call>"@ } else { "<tool_call>"@ };
    let all = fed(s, tools, b);
    let first = run(s, tools, none);
    let second = fed(first.state, tools, b);
    if let Some(p) = find_from(x, tag, 0) {
        lemma_find_from(x, tag, 0);
        lemma_found_in_part(x, b, tag);
        let head = x.subrange(0, p);
        let rest = x.subrange(p + tag.len(), n);
        assert((x + b).subrange(0, p) =~= head);
        assert((x + b).subrange(p + tag.len(), (x + b).len() as int) =~= rest + b);
        let (t, outs) = if s.in_call {
            match call_in(head, tools) {
                Some(c) => (
                    StreamView { buf: rest, in_call: false, n_calls: one_more(s.n_calls) },
                    none.push(OutView::Call(c)),
                ),
                None => (
                    StreamView { buf: rest, in_call: false, ..s },
                    none.push(OutView::Text("<tool_call>"@ + head + "</tool_call>"@)),
                ),
            }
        } else {
            let text = if s.n_calls == 0 { trim_end(head) } else { trim(head) };
            (
                StreamView { buf: rest, in_call: true, ..s },
                if text.len() > 0 { none.push(OutView::Text(text)) } else { none },
            )
        };
        let longer = StreamView { buf: rest + b, ..t };
        assert(first == run(t, tools, outs));
        assert(all == run(longer, tools, outs));
        lemma_run_outs(t, tools, outs);
        lemma_run_outs(longer, tools, outs);
        lemma_cut(t, tools, b, whole);
        let f = run(t, tools, none).outs;
        let w = run(longer, tools, none).outs;
        lemma_told_concat(outs, f, whole);
        lemma_told_concat(outs, w, whole);
        assert(told(outs, whole) + (told(f, whole) + told(second.outs, whole)) =~= told(outs, whole)
            + told(f, whole) + told(second.outs, whole));
    } else if s.in_call {
        lemma_told_nothing(whole);
        assert(told(none, whole) + told(all.outs, whole) =~= told(all.outs, whole));
    } else {
        lemma_cut_in_text(s, tools, b, whole);
    }
}

/// Text that comes in two pieces gives the state that it gives in one, with the same calls, and
/// the same text between them but for white space; and the very same text as long as there was no
/// call in the first piece or before it. Behind a call, the text before the next tag loses the
/// white space around it: a cut can keep what begins it, or drop some from its middle.
pub proof fn law_a_cut_changes_white_space_only(
    s: StreamView,
    tools: Seq<ToolView>,
    a: Seq<char>,
    b: Seq<char>,
)
    ensures
        ({
            let all = fed(s, tools, a + b);
            let first = fed(s, tools, a);
            let second = fed(first.state, tools, b);
            &&& all.state == second.state
            &&& told(all.outs, false) == told(first.outs, false) + told(second.outs, false)
            &&& first.state.n_calls == 0 ==> told(all.outs, true) == told(first.outs, true) + told(
                second.outs,
                true,
            )
        }),
{
    let t = StreamView { buf: s.buf + a, ..s };
    assert(s.buf + (a + b) =~= t.buf + b);
    lemma_cut(t, tools, b, false);
    if fed(s, tools, a).state.n_calls == 0 {
        lemma_cut(t, tools, b, true);
    }
}

/// A text that was cut into pieces.
pub open spec fn joined(pieces: Seq<Seq<char>>) -> Seq<char>
    decreases pieces.len(),
{
    if pieces.len() == 0 {
        Seq::empty()
    } else {
        joined(pieces.drop_last()) + pieces.last()
    }
}

/// A stream that takes one piece after the other.
pub open spec fn fed_all(s: StreamView, tools: Seq<ToolView>, pieces: Seq<Seq<char>>) -> Stepped
    decreases pieces.len(),
{
    if pieces.len() == 0 {
        Stepped { state: s, outs: Seq::empty() }
    } else {
        let before = fed_all(s, tools, pieces.drop_last());
        let last = fed(before.state, tools, pieces.last());
        Stepped { state: last.state, outs: before.outs + last.outs }
    }
}

/// However a text is cut into pieces, the stream comes to the state that it comes to with the
/// whole of it, and gives out the same calls and the same text but for white space.
pub proof fn law_pieces_change_white_space_only(
    s: StreamView,
    tools: Seq<ToolView>,
    pieces: Seq<Seq<char>>,
)
    requires
        pieces.len() > 0,
    ensures
        fed_all(s, tools, pieces).state == fed(s, tools, joined(pieces)).state,
        told(fed_all(s, tools, pieces).outs, false) == told(
            fed(s, tools, joined(pieces)).outs,
            false,
        ),
    decreases pieces.len(),
{
    let init = pieces.drop_last();
    let before = fed_all(s, tools, init);
    let last = fed(before.state, tools, pieces.last());
    if init.len() == 0 {
        assert(joined(pieces) =~= pieces.last());
        assert(before.outs + last.outs =~= last.outs);
    } else {
        law_pieces_change_white_space_only(s, tools, init);
        law_a_cut_changes_white_space_only(s, tools, joined(init), pieces.last());
        lemma_told_concat(before.outs, last.outs, false);
    }
}

/// A block between the tags that is a call is given out as that call and counted; the text before it
/// is given out first, without the white space at its end and, behind an earlier call, without that
/// at its beginning; and the text behind it is treated like any other.
pub proof fn law_a_closed_block_is_a_call(
    s: StreamView,
    tools: Seq<ToolView>,
    head: Seq<char>,
    block: Seq<char>,
    rest: Seq<char>,
    c: CallView,
)
    requires
        !s.in_call,
        s.n_calls < usize::MAX,
        s.buf == head + "<tool_call>"@ + block + "</tool_call>"@ + rest,
        find_from(s.buf, "<tool_call>"@, 0) == Some(head.len() as int),
        find_from(block + "</tool_call>"@ + rest, "</tool_call>"@, 0) == Some(block.len() as int),
        call_in(block, tools) == Some(c),
    ensures
        ({
            let r = run(s, tools, Seq::empty());
            let text = if s.n_calls == 0 { trim_end(head) } else { trim(head) };
            let next = StreamView { buf: rest, in_call: false, n_calls: (s.n_calls + 1) as usize };
            let after = run(next, tools, Seq::empty());
            &&& r.state == after.state
            &&& text.len() > 0 ==> r.outs == seq![OutView::Text(text), OutView::Call(c)] + after.outs
            &&& text.len() == 0 ==> r.outs == seq![OutView::Call(c)] + after.outs
        }),
{
    lemma_block(s, tools, head, block, rest);
    let text = if s.n_calls == 0 { trim_end(head) } else { trim(head) };
    let next = StreamView { buf: rest, in_call: false, n_calls: (s.n_calls + 1) as usize };
    let before = if text.len() > 0 { seq![OutView::Text(text)] } else { Seq::<OutView>::empty() };
    lemma_run_outs(next, tools, before.push(OutView::Call(c)));
    let after = run(next, tools, Seq::empty());
    if text.len() > 0 {
        assert(before.push(OutView::Call(c)) =~= seq![OutView::Text(text), OutView::Call(c)]);
    } else {
        assert(before.push(OutView::Call(c)) =~= seq![OutView::Call(c)]);
    }
}

/// A block between the tags that is no call is given out as the text that it is, with its tags, and
/// is not counted.
pub proof fn law_a_block_that_is_no_call_stays_text(
    s: StreamView,
    tools: Seq<ToolView>,
    head: Seq<char>,
    block: Seq<char>,
    rest: Seq<char>,
)
    requires
        !s.in_call,
        s.buf == head + "<tool_call>"@ + block + "</tool_call>"@ + rest,
        find_from(s.buf, "<tool_call>"@, 0) == Some(head.len() as int),
        find_from(block + "</tool_call>"@ + rest, "</tool_call>"@, 0) == Some(block.len() as int),
        call_in(block, tools) is None,
    ensures
        ({
            let r = run(s, tools, Seq::empty());
            let text = if s.n_calls == 0 { trim_end(head) } else { trim(head) };
            let raw = "<tool_call>"@ + block + "</tool_call>"@;
            let next = StreamView { buf: rest, in_call: false, n_calls: s.n_calls };
            let after = run(next, tools, Seq::empty());
            &&& r.state == after.state
            &&& text.len() > 0 ==> r.outs == seq![OutView::Text(text), OutView::Text(raw)] + after.outs
            &&& text.len() == 0 ==> r.outs == seq![OutView::Text(raw)] + after.outs
        }),
{
    lemma_block(s, tools, head, block, rest);
    let text = if s.n_calls == 0 { trim_end(head) } else { trim(head) };
    let raw = OutView::Text("<tool_call>"@ + block + "</tool_call>"@);
    let next = StreamView { buf: rest, in_call: false, n_calls: s.n_calls };
    let before = if text.len() > 0 { seq![OutView::Text(text)] } else { Seq::<OutView>::empty() };
    lemma_run_outs(next, tools, before.push(raw));
    if text.len() > 0 {
        assert(before.push(raw) =~= seq![OutView::Text(text), raw]);
    } else {
        assert(before.push(raw) =~= seq![raw]);
    }
}

/// The two steps over a block.
proof fn lemma_block(
    s: StreamView,
    tools: Seq<ToolView>,
    head: Seq<char>,
    block: Seq<char>,
    rest: Seq<char>,
)
    requires
        !s.in_call,
        s.buf == head + "<tool_call>"@ + block + "</tool_call>"@ + rest,
        find_from(s.buf, "<tool_call>"@, 0) == Some(head.len() as int),
        find_from(block + "</tool_call>"@ + rest, "</tool_call>"@, 0) == Some(block.len() as int),
    ensures
        ({
            let text = if s.n_calls == 0 { trim_end(head) } else { trim(head) };
            let before = if text.len() > 0 { seq![OutView::Text(text)] } else { Seq::<OutView>::empty() };
            run(s, tools, Seq::empty()) == match call_in(block, tools) {
                Some(c) => run(
                    StreamView { buf: rest, in_call: false, n_calls: one_more(s.n_calls) },
                    tools,
                    before.push(OutView::Call(c)),
                ),
                None => run(
                    StreamView { buf: rest, in_call: false, ..s },
                    tools,
                    before.push(OutView::Text("<tool_call>"@ + block + "</tool_call>"@)),
                ),
            }
        }),
{
    reveal_strlit("<tool_call>");
    reveal_strlit("</tool_call>");
    let n = s.buf.len() as int;
    let h = head.len() as int;
    let tail = block + "</tool_call>"@ + rest;
    assert(s.buf.subrange(0, h) =~= head);
    assert(s.buf.subrange(h + 11, n) =~= tail);
    let text = if s.n_calls == 0 { trim_end(head) } else { trim(head) };
    let before = if text.len() > 0 { seq![OutView::Text(text)] } else { Seq::<OutView>::empty() };
    let open = StreamView { buf: tail, in_call: true, ..s };
    assert(Seq::<OutView>::empty().push(OutView::Text(text)) =~= seq![OutView::Text(text)]);
    assert(run(s, tools, Seq::empty()) == run(open, tools, before));
    assert(tail.subrange(0, block.len() as int) =~= block);
    assert(tail.subrange(block.len() as int + 12, tail.len() as int) =~= rest);
}

/// Of text without a tag no more is held back than a beginning of a tag at its end and the white
/// space before that, and every beginning of a tag is.
pub proof fn law_only_a_beginning_of_a_tag_is_held_back(
    s: StreamView,
    tools: Seq<ToolView>,
    k: int,
) -> (m: int)
    requires
        !s.in_call,
        find_from(s.buf, "<tool_call>"@, 0) is None,
        0 <= k <= 10,
        k <= s.buf.len(),
    ensures
        ({
            let held = run(s, tools, Seq::empty()).state.buf;
            &&& 0 <= m <= held.len()
            &&& m <= 10
            &&& held.subrange(held.len() - m, held.len() as int) == "<tool_call>"@.subrange(0, m)
            &&& forall|i: int| 0 <= i < held.len() - m ==> white(#[trigger] held[i])
            &&& s.buf.subrange(s.buf.len() - k, s.buf.len() as int) == "<tool_call>"@.subrange(0, k) ==> k
                <= held.len()
        }),
{
    reveal_strlit("<tool_call>");
    let x = s.buf;
    let n = x.len() as int;
    let m = partial_open(x, 10);
    lemma_partial_is_longest(x, 10);
    lemma_partial_open(x, 10);
    lemma_settled_part(x);
    let e = settled(x);
    let held = run(s, tools, Seq::empty()).state.buf;
    assert(held =~= x.subrange(e, n));
    assert(held.subrange(held.len() - m, held.len() as int) =~= x.subrange(n - m, n));
    let cut = x.subrange(0, n - m);
    lemma_white_behind(cut);
    assert forall|i: int| 0 <= i < held.len() - m implies white(#[trigger] held[i]) by {
        assert(held[i] == cut[e + i]);
    }
    if x.subrange(n - k, n) == "<tool_call>"@.subrange(0, k) {
        assert(ends_in(x, k));
    }
    m
}

proof fn lemma_white_behind(s: Seq<char>)
    ensures
        trim_end(s).len() <= s.len(),
        forall|i: int| trim_end(s).len() <= i < s.len() ==> white(#[trigger] s[i]),
    decreases s.len(),
{
    if s.len() > 0 && white(s.last()) {
        lemma_white_behind(s.drop_last());
        assert forall|i: int| trim_end(s).len() <= i < s.len() implies white(#[trigger] s[i]) by {
            if i < s.len() - 1 {
                assert(s.drop_last()[i] == s[i]);
            }
        }
    }
}

/// At the end a block that was never closed is given out as it came, with its tag; the rest of the
/// text as it came where there was no call, and else without the white space around it.
pub proof fn law_nothing_is_lost_at_the_end(s: StreamView)
    ensures
        s.in_call ==> last_text(s) == "<tool_call>"@ + s.buf,
        !s.in_call && s.n_calls == 0 ==> last_text(s) == s.buf,
        !s.in_call && s.n_calls > 0 ==> last_text(s) == trim(s.buf),
{
}

} // verus!
