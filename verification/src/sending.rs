//! The pieces that are sent of an output make its text: nothing is sent twice, nothing left out.
use crate::emit::{
    clean, lemma_first_hit, lemma_stop_is_unsent, search_start, stop_hit, EmitterView, PieceView,
    SectionView, THINK_CLOSE,
};
use crate::text::{found_at, trim_end, trim_start};
use crate::utf8::{
    byte_len, lemma_byte_len_bounds, lemma_byte_len_grows, lemma_whole_chars, lemma_whole_prefix,
    whole_chars,
};
use vstd::prelude::*;

verus! {

/// What was sent of a section.
pub open spec fn sent_text(c: SectionView) -> Seq<char> {
    c.text.take(whole_chars(c.text, c.sent))
}

/// Whether whole characters were sent of a section.
pub open spec fn at_char(c: SectionView) -> bool {
    0 <= c.sent && byte_len(sent_text(c)) == c.sent
}

/// What a piece adds to the thought.
pub open spec fn thought_in(p: Option<PieceView>) -> Seq<char> {
    match p {
        Some(PieceView::Reasoning(s)) => s,
        _ => Seq::empty(),
    }
}

/// What a piece adds to the answer.
pub open spec fn answer_in(p: Option<PieceView>) -> Seq<char> {
    match p {
        Some(PieceView::Content(s)) => s,
        _ => Seq::empty(),
    }
}

/// A text that grows keeps what was sent of it.
proof fn lemma_grown(c: SectionView, d: SectionView, k: int)
    requires
        at_char(c),
        k == whole_chars(c.text, c.sent),
        d.sent == c.sent,
        k <= d.text.len(),
        d.text.take(k) == c.text.take(k),
    ensures
        at_char(d),
        sent_text(d) == sent_text(c),
{
    lemma_whole_chars(c.text, c.sent);
    lemma_whole_prefix(d.text, k);
}

/// A piece takes up where the last one ended.
proof fn lemma_piece(c: SectionView, hold: int)
    requires
        at_char(c),
        hold >= 0,
    ensures
        at_char(c.after_piece(hold)),
        sent_text(c.after_piece(hold)) == sent_text(c) + match c.piece(hold) {
            Some(p) => p,
            None => Seq::empty(),
        },
        hold == 0 ==> sent_text(c.after_piece(hold)) == c.text,
{
    let k = whole_chars(c.text, c.sent);
    lemma_whole_chars(c.text, c.sent);
    lemma_byte_len_bounds(c.text);
    let b = byte_len(c.text) - hold;
    lemma_whole_chars(c.text, if b < 0 { 0 } else { b });
    let e = c.send_end(hold);
    let at = byte_len(c.text.take(e));
    lemma_byte_len_bounds(c.text.take(e));
    lemma_whole_prefix(c.text, e);
    assert(c.text.take(c.text.len() as int) =~= c.text);
    if at > c.sent {
        if k > e {
            lemma_byte_len_grows(c.text, e, k);
        }
        assert(c.text.take(e) =~= c.text.take(k) + c.text.subrange(k, e));
    } else {
        assert(sent_text(c) + Seq::<char>::empty() =~= sent_text(c));
        if hold == 0 {
            lemma_whole_prefix(c.text, c.text.len() as int);
            lemma_byte_len_grows(c.text, k, c.text.len() as int);
        }
    }
}

proof fn lemma_trailing_white(s: Seq<char>)
    ensures
        byte_len(trim_end(s)) <= byte_len(s),
    decreases s.len(),
{
    if s.len() > 0 {
        lemma_trailing_white(s.drop_last());
    }
}

/// What comes with a token stands behind the text.
proof fn lemma_pushed(c: SectionView, id: u32, decoded: Seq<char>)
    requires
        at_char(c),
    ensures
        at_char(c.pushed(id, decoded)),
        sent_text(c.pushed(id, decoded)) == sent_text(c),
        c.text.len() <= c.pushed(id, decoded).text.len(),
        c.pushed(id, decoded).text.take(c.text.len() as int) == c.text,
{
    let d = c.pushed(id, decoded);
    let k = whole_chars(c.text, c.sent);
    lemma_whole_chars(c.text, c.sent);
    assert(d.text.take(c.text.len() as int) =~= c.text);
    assert(d.text.take(k) =~= c.text.take(k));
    lemma_grown(c, d, k);
}

proof fn lemma_finished(c: SectionView, decoded: Seq<char>)
    requires
        at_char(c),
    ensures
        at_char(c.finished(decoded)),
        sent_text(c.finished(decoded)) == sent_text(c),
{
    let d = c.finished(decoded);
    let k = whole_chars(c.text, c.sent);
    lemma_whole_chars(c.text, c.sent);
    assert(d.text.take(k) =~= c.text.take(k));
    lemma_grown(c, d, k);
}

/// Where a stop string cuts the answer, what was sent stays.
proof fn lemma_cut(e: EmitterView, next: u32, decoded: Seq<char>)
    requires
        e.skip_ws ==> e.content.text.len() == 0,
        forall|i: int| 0 <= i < e.stops.len() ==> (#[trigger] e.stops[i]).len() > 0,
        clean(e.content, e.stops),
    ensures
        at_char(e.cut(next, decoded)),
        sent_text(e.cut(next, decoded)) == sent_text(e.content),
{
    let c = e.content;
    let k = whole_chars(c.text, c.sent);
    lemma_whole_chars(c.text, c.sent);
    lemma_pushed(c, next, decoded);
    let a = e.answered(next, decoded);
    let pushed = c.pushed(next, decoded);
    let more = if e.skip_ws {
        trim_start(pushed.text)
    } else {
        pushed.text.skip(c.text.len() as int)
    };
    assert(a.text =~= c.text + more);
    let t = e.cut(next, decoded);
    if let Some(p) = stop_hit(a, e.stops) {
        let from = search_start(a, e.stops);
        let m = crate::emit::longest(e.stops, e.stops.len() as int);
        lemma_whole_chars(a.text, if c.sent - m < 0 { 0 } else { c.sent - m });
        lemma_first_hit(a.text, e.stops, from, e.stops.len() as int);
        let i = choose|i: int| 0 <= i < e.stops.len() && #[trigger] found_at(a.text, e.stops[i], p);
        lemma_stop_is_unsent(c, more, e.stops, i, p);
    }
    assert(t.text.take(k) =~= c.text.take(k));
    lemma_grown(c, t, k);
}

/// With every token, what was sent of the thought and of the answer grows by the piece that is
/// sent, and by nothing else.
pub proof fn law_pieces_follow_each_other(e: EmitterView, next: u32, decoded: Seq<char>)
    requires
        at_char(e.reasoning),
        at_char(e.content),
        !e.in_reasoning && e.skip_ws ==> e.content.text.len() == 0,
        forall|i: int| 0 <= i < e.stops.len() ==> (#[trigger] e.stops[i]).len() > 0,
        clean(e.content, e.stops),
    ensures
        ({
            let f = e.pushed(next, decoded);
            let p = e.piece(next, decoded);
            &&& at_char(f.reasoning)
            &&& at_char(f.content)
            &&& sent_text(f.reasoning) == sent_text(e.reasoning) + thought_in(p)
            &&& sent_text(f.content) == sent_text(e.content) + answer_in(p)
        }),
{
    let none = Seq::<char>::empty();
    assert(sent_text(e.reasoning) + none =~= sent_text(e.reasoning));
    assert(sent_text(e.content) + none =~= sent_text(e.content));
    if e.in_reasoning {
        let r = e.reasoned(next, decoded);
        if next == THINK_CLOSE {
            lemma_finished(e.reasoning, decoded);
        } else {
            lemma_pushed(e.reasoning, next, decoded);
        }
        lemma_trailing_white(r.text);
        lemma_piece(r, r.trailing_white());
    } else {
        lemma_cut(e, next, decoded);
        let t = e.cut(next, decoded);
        let hold = e.hold(next, decoded);
        assert(hold >= 0) by {
            let held = crate::emit::held_chars(t.text, e.stops, e.stops.len() as int);
            lemma_byte_len_bounds(t.text.skip(t.text.len() - held));
        }
        lemma_piece(t, hold);
    }
}

/// At the end the rest is sent, and with it all of the text of the section that was open.
pub proof fn law_all_is_sent_at_the_end(e: EmitterView, decoded: Seq<char>)
    requires
        at_char(e.reasoning),
        at_char(e.content),
    ensures
        ({
            let f = e.flushed(decoded);
            let p = e.last_piece(decoded);
            &&& sent_text(f.reasoning) == sent_text(e.reasoning) + thought_in(p)
            &&& sent_text(f.content) == sent_text(e.content) + answer_in(p)
            &&& sent_text(f.section()) == e.section().finished(decoded).text
        }),
{
    let none = Seq::<char>::empty();
    assert(sent_text(e.reasoning) + none =~= sent_text(e.reasoning));
    assert(sent_text(e.content) + none =~= sent_text(e.content));
    lemma_finished(e.section(), decoded);
    lemma_piece(e.section().finished(decoded), 0);
}

} // verus!
