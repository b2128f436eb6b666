//! What a client gathers from a streamed answer is what it would have been given at once.
use crate::completion::{
    call_delta, chunk_text, finish_text, forwarded, last_outs, text_delta, CallText, ChoiceView,
    CompletionView, Head,
};
use crate::engine::Event;
use crate::json::{compact, JsonView};
use crate::tools::{run, OutView, StreamView};
use vstd::prelude::*;

verus! {

/// What a chunk of a stream carries of one choice.
pub enum Delta {
    Reasoning(Seq<char>),
    Content(Seq<char>),
    /// The call with that number.
    Call(int, CallText),
    /// Why the choice ended.
    End(Seq<char>),
}

/// The chunk that carries a delta of choice `index`.
pub open spec fn delta_chunk(h: Head, index: int, d: Delta) -> Seq<char> {
    match d {
        Delta::Reasoning(t) => chunk_text(h, index, text_delta("reasoning_content"@, t), None),
        Delta::Content(t) => chunk_text(h, index, text_delta("content"@, t), None),
        Delta::Call(k, c) => chunk_text(h, index, call_delta(h.tail, index, k, c), None),
        Delta::End(r) => chunk_text(h, index, JsonView::Object(Seq::empty()), Some(r)),
    }
}

/// The chunks that carry deltas of choice `index`.
pub open spec fn delta_chunks(h: Head, index: int, ds: Seq<Delta>) -> Seq<Seq<char>>
    decreases ds.len(),
{
    if ds.len() == 0 {
        Seq::empty()
    } else {
        delta_chunks(h, index, ds.drop_last()).push(delta_chunk(h, index, ds.last()))
    }
}

/// The thought that deltas carry.
pub open spec fn gathered_reasoning(ds: Seq<Delta>) -> Seq<char>
    decreases ds.len(),
{
    if ds.len() == 0 {
        Seq::empty()
    } else {
        gathered_reasoning(ds.drop_last()) + match ds.last() {
            Delta::Reasoning(t) => t,
            _ => Seq::empty(),
        }
    }
}

/// The text that deltas carry.
pub open spec fn gathered_content(ds: Seq<Delta>) -> Seq<char>
    decreases ds.len(),
{
    if ds.len() == 0 {
        Seq::empty()
    } else {
        gathered_content(ds.drop_last()) + match ds.last() {
            Delta::Content(t) => t,
            _ => Seq::empty(),
        }
    }
}

/// The calls that deltas carry.
pub open spec fn gathered_calls(ds: Seq<Delta>) -> Seq<CallText>
    decreases ds.len(),
{
    if ds.len() == 0 {
        Seq::empty()
    } else {
        match ds.last() {
            Delta::Call(_, c) => gathered_calls(ds.drop_last()).push(c),
            _ => gathered_calls(ds.drop_last()),
        }
    }
}

/// The deltas for the first `n` pieces of a content stream, behind `k` calls.
pub open spec fn piece_deltas(outs: Seq<OutView>, k: int, n: int) -> Seq<Delta>
    decreases n,
{
    if n <= 0 {
        Seq::empty()
    } else {
        let ds = piece_deltas(outs, k, n - 1);
        match outs[n - 1] {
            OutView::Text(t) => ds.push(Delta::Content(t)),
            OutView::Call(c) => ds.push(
                Delta::Call(
                    k + gathered_calls(ds).len(),
                    CallText { name: c.name, arguments: compact(JsonView::Object(c.arguments)) },
                ),
            ),
        }
    }
}

/// The deltas for an event of a choice.
pub open spec fn event_deltas<F>(c: ChoiceView, e: Event<F>) -> Seq<Delta> {
    let k = c.calls.len() as int;
    match e {
        Event::Reasoning(t) => seq![Delta::Reasoning(t@)],
        Event::Content(t) => {
            let r = run(StreamView { buf: c.parser.buf + t@, ..c.parser }, c.tools, Seq::empty());
            piece_deltas(r.outs, k, r.outs.len() as int)
        },
        Event::Done(f) => if c.finish is Some {
            Seq::empty()
        } else {
            let outs = last_outs(c.parser);
            piece_deltas(outs, k, outs.len() as int).push(
                Delta::End(finish_text(k, f.reason)),
            )
        },
        _ => Seq::empty(),
    }
}

/// Whether two choices are the same but for the text that they keep.
pub open spec fn same_but_text(a: ChoiceView, b: ChoiceView) -> bool {
    ChoiceView { content: b.content, reasoning: b.reasoning, ..a } == b
}

proof fn lemma_pieces(h: Head, index: int, a: ChoiceView, b: ChoiceView, outs: Seq<OutView>, n: int)
    requires
        0 <= n <= outs.len(),
        same_but_text(a, b),
    ensures
        ({
            let ds = piece_deltas(outs, a.calls.len() as int, n);
            let s = forwarded(h, index, true, a, outs, n);
            let t = forwarded(h, index, false, b, outs, n);
            &&& s.chunks == delta_chunks(h, index, ds)
            &&& t.chunks == Seq::<Seq<char>>::empty()
            &&& same_but_text(s.choice, t.choice)
            &&& t.choice.content == b.content + gathered_content(ds)
            &&& t.choice.reasoning == b.reasoning + gathered_reasoning(ds)
            &&& t.choice.calls == b.calls + gathered_calls(ds)
        }),
    decreases n,
{
    let k = a.calls.len() as int;
    let ds = piece_deltas(outs, k, n);
    if n > 0 {
        lemma_pieces(h, index, a, b, outs, n - 1);
        let before = piece_deltas(outs, k, n - 1);
        let s = forwarded(h, index, true, a, outs, n - 1);
        assert(ds.drop_last() =~= before);
        assert(s.choice.calls.len() == k + gathered_calls(before).len());
        let t = forwarded(h, index, false, b, outs, n);
        assert(t.choice.content =~= b.content + gathered_content(ds));
        assert(t.choice.reasoning =~= b.reasoning + gathered_reasoning(ds));
        assert(t.choice.calls =~= b.calls + gathered_calls(ds));
    } else {
        assert(b.content + Seq::<char>::empty() =~= b.content);
        assert(b.reasoning + Seq::<char>::empty() =~= b.reasoning);
        assert(b.calls + Seq::<CallText>::empty() =~= b.calls);
    }
}

/// Of the same event, a streamed answer sends in chunks what an answer given at once adds to the
/// choice: the same thought, the same text, the same calls in the same order, and the same end.
pub proof fn law_stream_carries_the_answer<F>(
    a: CompletionView,
    b: CompletionView,
    index: int,
    e: Event<F>,
)
    requires
        a.stream,
        !b.stream,
        a.head == b.head,
        0 <= index < a.choices.len(),
        0 <= index < b.choices.len(),
        same_but_text(a.choices[index], b.choices[index]),
    ensures
        ({
            let c = b.choices[index];
            let ds = event_deltas(c, e);
            let s = a.step(index, e);
            let t = b.step(index, e);
            &&& s.chunks == delta_chunks(a.head, index, ds)
            &&& t.chunks == Seq::<Seq<char>>::empty()
            &&& same_but_text(s.choice, t.choice)
            &&& t.choice.content == c.content + gathered_content(ds)
            &&& t.choice.reasoning == c.reasoning + gathered_reasoning(ds)
            &&& t.choice.calls == c.calls + gathered_calls(ds)
        }),
{
    let c = b.choices[index];
    let d = a.choices[index];
    let ds = event_deltas(c, e);
    let t = b.step(index, e);
    let none = Seq::<Delta>::empty();
    assert(c.content + gathered_content(none) =~= c.content);
    assert(c.reasoning + gathered_reasoning(none) =~= c.reasoning);
    assert(c.calls + gathered_calls(none) =~= c.calls);
    match e {
        Event::Reasoning(text) => {
            assert(ds.drop_last() =~= none);
            assert(ds.last() == Delta::Reasoning(text@));
            assert(gathered_reasoning(ds) =~= text@);
            assert(gathered_content(ds) =~= gathered_content(none));
            assert(a.step(index, e).chunks =~= delta_chunks(a.head, index, ds)) by {
                assert(delta_chunks(a.head, index, none) =~= Seq::<Seq<char>>::empty());
            }
        },
        Event::Content(text) => {
            let r = run(StreamView { buf: c.parser.buf + text@, ..c.parser }, c.tools, Seq::empty());
            lemma_pieces(
                a.head,
                index,
                ChoiceView { parser: r.state, ..d },
                ChoiceView { parser: r.state, ..c },
                r.outs,
                r.outs.len() as int,
            );
        },
        Event::Done(f) => {
            if c.finish is None {
                let outs = last_outs(c.parser);
                let p = StreamView { buf: Seq::empty(), in_call: false, n_calls: c.parser.n_calls };
                lemma_pieces(
                    a.head,
                    index,
                    ChoiceView { parser: p, ..d },
                    ChoiceView { parser: p, ..c },
                    outs,
                    outs.len() as int,
                );
                let pieces = piece_deltas(outs, c.calls.len() as int, outs.len() as int);
                lemma_last_outs_hold_no_call(c.parser, c.calls.len() as int);
                assert(ds.drop_last() =~= pieces);
                assert(gathered_content(ds) =~= gathered_content(pieces));
                assert(gathered_reasoning(ds) =~= gathered_reasoning(pieces));
                assert(gathered_calls(ds) =~= gathered_calls(pieces));
            }
        },
        _ => {},
    }
}

/// What is left when a content stream ends is text.
proof fn lemma_last_outs_hold_no_call(p: StreamView, k: int)
    ensures
        gathered_calls(piece_deltas(last_outs(p), k, last_outs(p).len() as int)).len() == 0,
{
    reveal_with_fuel(piece_deltas, 2);
    reveal_with_fuel(gathered_calls, 2);
    let ds = piece_deltas(last_outs(p), k, last_outs(p).len() as int);
    if ds.len() > 0 {
        assert(ds.drop_last() =~= Seq::empty());
        assert(ds.last() is Content);
    }
}

} // verus!
