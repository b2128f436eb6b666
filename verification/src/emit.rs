//! From generated tokens to the text that leaves the server.
//!
//! Tokens are detokenised in windows that end on complete characters; reasoning is split from
//! the answer by the `</think>` token; text that may turn out to be a stop string is held back.
use crate::text::{copy_range, find, find_from, from_chars, leading_white, to_chars, trim_end, trim_end_len, trim_start};
use crate::text::{found_at, lemma_find_from, texts};
use crate::utf8::{byte_len, bytes_of, char_from, char_from_of, whole_chars, whole_chars_of};
use crate::utf8::{law_byte_len, lemma_byte_len_bounds, lemma_byte_len_concat, lemma_byte_len_grows};
use crate::utf8::{lemma_whole_chars, lemma_whole_prefix};
use vstd::prelude::*;

verus! {

/// The token that closes a `<think>` block (an added token; it decodes as text).
pub const THINK_CLOSE: u32 = 248069;

/// The mark that stands for bytes which are no complete character yet.
pub const REPLACEMENT: char = '\u{FFFD}';

/// A text without the replacement marks at its end.
pub open spec fn stable_part(s: Seq<char>) -> Seq<char>
    decreases s.len(),
{
    if s.len() > 0 && s.last() == REPLACEMENT { stable_part(s.drop_last()) } else { s }
}

pub(crate) fn stable_len(s: &[char]) -> (n: usize)
    ensures
        n <= s@.len(),
        s@.take(n as int) == stable_part(s@),
{
    let mut n: usize = s.len();
    assert(s@.take(n as int) =~= s@);
    while n > 0 && s[n - 1] == REPLACEMENT
        invariant
            n <= s@.len(),
            stable_part(s@.take(n as int)) == stable_part(s@),
        decreases n,
    {
        assert(s@.take(n as int).drop_last() =~= s@.take(n - 1));
        n = n - 1;
    }
    n
}

/// One output section as values. Sizes and positions in text count bytes.
#[verifier::ext_equal]
pub struct SectionView {
    pub ids: Seq<u32>,
    /// The first token of the window that is decoded together.
    pub start: int,
    /// How much of the window's text was taken over.
    pub window_emitted: int,
    pub text: Seq<char>,
    /// How much of the text was sent.
    pub sent: int,
}

impl SectionView {
    pub open spec fn empty() -> SectionView {
        SectionView { ids: Seq::empty(), start: 0, window_emitted: 0, text: Seq::empty(), sent: 0 }
    }

    /// The tokens that are decoded together once `id` has joined them.
    pub open spec fn window(self, id: u32) -> Seq<u32> {
        self.ids.push(id).skip(self.start)
    }

    /// After token `id`, the window decoding to `decoded`.
    pub open spec fn pushed(self, id: u32, decoded: Seq<char>) -> SectionView {
        let stable = stable_part(decoded);
        let fresh = byte_len(stable) > self.window_emitted;
        let text = if fresh {
            self.text + stable.skip(whole_chars(stable, self.window_emitted))
        } else {
            self.text
        };
        if stable.len() == decoded.len() {
            SectionView {
                ids: self.ids.push(id),
                start: self.ids.len() as int + 1,
                window_emitted: 0,
                text,
                sent: self.sent,
            }
        } else {
            SectionView {
                ids: self.ids.push(id),
                window_emitted: if fresh { byte_len(stable) } else { self.window_emitted },
                text,
                ..self
            }
        }
    }

    /// With what was still held back of the window.
    pub open spec fn finished(self, decoded: Seq<char>) -> SectionView {
        if self.start < self.ids.len() {
            SectionView {
                start: self.ids.len() as int,
                window_emitted: 0,
                text: if byte_len(decoded) > self.window_emitted {
                    self.text + decoded.skip(whole_chars(decoded, self.window_emitted))
                } else {
                    self.text
                },
                ..self
            }
        } else {
            self
        }
    }

    /// Where sending stops when the last `hold` bytes stay back.
    pub open spec fn send_end(self, hold: int) -> int {
        let end = byte_len(self.text) - hold;
        whole_chars(self.text, if end < 0 { 0 } else { end })
    }

    /// What is sent when the last `hold` bytes stay back.
    pub open spec fn piece(self, hold: int) -> Option<Seq<char>> {
        let e = self.send_end(hold);
        if byte_len(self.text.take(e)) > self.sent {
            Some(self.text.subrange(whole_chars(self.text, self.sent), e))
        } else {
            None
        }
    }

    pub open spec fn after_piece(self, hold: int) -> SectionView {
        let at = byte_len(self.text.take(self.send_end(hold)));
        SectionView { sent: if at > self.sent { at } else { self.sent }, ..self }
    }

    /// How many bytes of white space the text ends with.
    pub open spec fn trailing_white(self) -> int {
        byte_len(self.text) - byte_len(trim_end(self.text))
    }
}

/// Incremental detokeniser for one output section: takes over the text of the tokens since the
/// last point where every character was complete, and holds back what is not.
pub struct Section {
    ids: Vec<u32>,
    start: usize,
    window_emitted: u128,
    text: Vec<char>,
    bytes: u128,
    sent: u128,
}

impl View for Section {
    type V = SectionView;

    closed spec fn view(&self) -> SectionView {
        SectionView {
            ids: self.ids@,
            start: self.start as int,
            window_emitted: self.window_emitted as int,
            text: self.text@,
            sent: self.sent as int,
        }
    }
}

impl Section {
    /// The window starts within the tokens, and the size of the text is known.
    pub closed spec fn sound(&self) -> bool {
        &&& self.start <= self.ids@.len()
        &&& self.bytes == byte_len(self.text@)
    }

    pub fn new() -> (s: Section)
        ensures
            s.sound(),
            s@ == SectionView::empty(),
    {
        Section { ids: Vec::new(), start: 0, window_emitted: 0, text: Vec::new(), bytes: 0, sent: 0 }
    }

    /// The tokens to decode together once `id` has joined them.
    pub fn window(&self, id: u32) -> (w: Vec<u32>)
        requires
            self.sound(),
        ensures
            w@ == self@.window(id),
    {
        let mut w: Vec<u32> = self.held();
        w.push(id);
        assert(w@ =~= self@.window(id));
        w
    }

    /// The tokens of the window as it stands.
    pub fn held(&self) -> (w: Vec<u32>)
        requires
            self.sound(),
        ensures
            w@ == self@.ids.skip(self@.start),
    {
        let mut w: Vec<u32> = Vec::new();
        let n: usize = self.ids.len();
        let mut i: usize = self.start;
        while i < n
            invariant
                self.start <= i <= n,
                n == self.ids@.len(),
                w@ == self.ids@.subrange(self.start as int, i as int),
            decreases n - i,
        {
            w.push(self.ids[i]);
            i = i + 1;
        }
        assert(w@ =~= self@.ids.skip(self@.start));
        w
    }

    /// The text so far, sent or not.
    pub fn text(&self) -> (s: String)
        ensures
            s@ == self@.text,
    {
        from_chars(self.text.as_slice())
    }

    fn append(&mut self, more: &[char], from: usize)
        requires
            old(self).sound(),
            from <= more@.len(),
        ensures
            final(self).sound(),
            final(self)@ == (SectionView { text: old(self)@.text + more@.skip(from as int), ..old(self)@ }),
    {
        let ghost before = self.text@;
        let n: usize = more.len();
        let mut i: usize = from;
        while i < n
            invariant
                from <= i <= n,
                n == more@.len(),
                self.text@ == before + more@.subrange(from as int, i as int),
                self.ids == old(self).ids,
                self.start == old(self).start,
                self.window_emitted == old(self).window_emitted,
                self.sent == old(self).sent,
                self.bytes == old(self).bytes,
            decreases n - i,
        {
            self.text.push(more[i]);
            i = i + 1;
        }
        let tail: Vec<char> = copy_range(more, from, n);
        assert(tail@ =~= more@.skip(from as int));
        let total: usize = self.text.len();
        proof {
            assert(self.text@ =~= before + tail@);
            lemma_byte_len_concat(before, tail@);
            lemma_byte_len_bounds(self.text@);
        }
        self.bytes = self.bytes + bytes_of(tail.as_slice());
        assert(self@ =~= (SectionView { text: old(self)@.text + more@.skip(from as int), ..old(self)@ }));
    }

    /// Token `id`, where the window together with it decodes to `decoded`.
    pub fn push(&mut self, id: u32, decoded: &str)
        requires
            old(self).sound(),
        ensures
            final(self).sound(),
            final(self)@ == old(self)@.pushed(id, decoded@),
    {
        let s: Vec<char> = to_chars(decoded);
        let n: usize = stable_len(s.as_slice());
        let stable: Vec<char> = copy_range(s.as_slice(), 0, n);
        assert(stable@ =~= stable_part(s@));
        let size: u128 = bytes_of(stable.as_slice());
        self.ids.push(id);
        if size > self.window_emitted {
            let (from, _) = whole_chars_of(stable.as_slice(), size, self.window_emitted);
            self.append(stable.as_slice(), from);
            self.window_emitted = size;
        }
        if n == s.len() {
            self.start = self.ids.len();
            self.window_emitted = 0;
        }
        assert(self@ =~= old(self)@.pushed(id, decoded@));
    }

    /// Append whatever is still held back (the section ends), the window decoding to `decoded`.
    pub fn finish(&mut self, decoded: &str)
        requires
            old(self).sound(),
        ensures
            final(self).sound(),
            final(self)@ == old(self)@.finished(decoded@),
    {
        if self.start < self.ids.len() {
            let s: Vec<char> = to_chars(decoded);
            let size: u128 = bytes_of(s.as_slice());
            if size > self.window_emitted {
                let (from, _) = whole_chars_of(s.as_slice(), size, self.window_emitted);
                self.append(s.as_slice(), from);
            }
            self.start = self.ids.len();
            self.window_emitted = 0;
        }
        assert(self@ =~= old(self)@.finished(decoded@));
    }

    /// Text not yet sent, keeping `hold` bytes back (and whole characters only).
    pub fn take(&mut self, hold: u128) -> (r: Option<String>)
        requires
            old(self).sound(),
        ensures
            final(self).sound(),
            final(self)@ == old(self)@.after_piece(hold as int),
            match old(self)@.piece(hold as int) {
                Some(p) => r matches Some(s) && s@ == p,
                None => r is None,
            },
    {
        let end: u128 = if self.bytes < hold { 0 } else { self.bytes - hold };
        let (e, at) = whole_chars_of(self.text.as_slice(), self.bytes, end);
        if at > self.sent {
            let (from, _) = whole_chars_of(self.text.as_slice(), self.bytes, self.sent);
            proof {
                lemma_whole_chars(self.text@, self.sent as int);
                if from > e {
                    lemma_byte_len_grows(self.text@, e as int, from as int);
                }
            }
            let piece: Vec<char> = copy_range(self.text.as_slice(), from, e);
            self.sent = at;
            assert(self@ =~= old(self)@.after_piece(hold as int));
            Some(from_chars(piece.as_slice()))
        } else {
            assert(self@ =~= old(self)@.after_piece(hold as int));
            None
        }
    }

    pub fn trailing_ws(&self) -> (n: u128)
        requires
            self.sound(),
        ensures
            n == self@.trailing_white(),
    {
        let k: usize = trim_end_len(self.text.as_slice());
        let tail: Vec<char> = copy_range(self.text.as_slice(), k, self.text.len());
        proof {
            assert(self.text@ =~= self.text@.subrange(0, k as int) + tail@);
            lemma_byte_len_concat(self.text@.subrange(0, k as int), tail@);
        }
        bytes_of(tail.as_slice())
    }
}

/// Whether the last `k` characters of a text are the first `k` of a stop string, but not all of it.
pub open spec fn begins(text: Seq<char>, stop: Seq<char>, k: int) -> bool {
    &&& 0 < k < stop.len()
    &&& k <= text.len()
    &&& text.skip(text.len() - k) == stop.take(k)
}

/// The largest number up to `k` for which a stop string has begun.
pub open spec fn longest_begin(text: Seq<char>, stop: Seq<char>, k: int) -> int
    decreases k,
{
    if k <= 0 { 0 } else if begins(text, stop, k) { k } else { longest_begin(text, stop, k - 1) }
}

/// How many characters at the end of a text may turn out to belong to one of the first `n` stop
/// strings.
pub open spec fn held_chars(text: Seq<char>, stops: Seq<Seq<char>>, n: int) -> int
    decreases n,
{
    if n <= 0 {
        0
    } else {
        let rest = held_chars(text, stops, n - 1);
        let k = longest_begin(text, stops[n - 1], stops[n - 1].len() - 1);
        if k > rest { k } else { rest }
    }
}

/// The bytes at the end of a text that are held back for its stop strings.
pub open spec fn holdback(text: Seq<char>, stops: Seq<Seq<char>>) -> int {
    byte_len(text.skip(text.len() - held_chars(text, stops, stops.len() as int)))
}

proof fn lemma_longest_begin(text: Seq<char>, stop: Seq<char>, k: int)
    ensures
        0 <= longest_begin(text, stop, k) <= text.len(),
        longest_begin(text, stop, k) > 0 ==> begins(text, stop, longest_begin(text, stop, k)),
        forall|j: int| j <= k && #[trigger] begins(text, stop, j) ==> j <= longest_begin(text, stop, k),
    decreases k,
{
    if k > 0 && !begins(text, stop, k) {
        lemma_longest_begin(text, stop, k - 1);
    }
}

proof fn lemma_held_chars(text: Seq<char>, stops: Seq<Seq<char>>, n: int)
    requires
        0 <= n <= stops.len(),
    ensures
        0 <= held_chars(text, stops, n) <= text.len(),
        forall|i: int, j: int|
            0 <= i < n && #[trigger] begins(text, stops[i], j) ==> j <= held_chars(text, stops, n),
        held_chars(text, stops, n) > 0 ==> exists|i: int|
            0 <= i < n && #[trigger] begins(text, stops[i], held_chars(text, stops, n)),
    decreases n,
{
    if n > 0 {
        lemma_held_chars(text, stops, n - 1);
        lemma_longest_begin(text, stops[n - 1], stops[n - 1].len() - 1);
        let rest = held_chars(text, stops, n - 1);
        let k = longest_begin(text, stops[n - 1], stops[n - 1].len() - 1);
        if k > rest {
            assert(begins(text, stops[n - 1], held_chars(text, stops, n)));
        } else if rest > 0 {
            let i = choose|i: int| 0 <= i < n - 1 && #[trigger] begins(text, stops[i], rest);
            assert(begins(text, stops[i], held_chars(text, stops, n)));
        }
    }
}

/// What is held back is the longest end of the text with which a stop string may have begun.
pub proof fn law_holdback_is_longest(text: Seq<char>, stops: Seq<Seq<char>>)
    ensures
        ({
            let k = held_chars(text, stops, stops.len() as int);
            &&& 0 <= k <= text.len()
            &&& k > 0 ==> exists|i: int| 0 <= i < stops.len() && #[trigger] begins(text, stops[i], k)
            &&& forall|i: int, j: int|
                0 <= i < stops.len() && #[trigger] begins(text, stops[i], j) ==> j <= k
        }),
{
    lemma_held_chars(text, stops, stops.len() as int);
}

fn has_begun(text: &[char], stop: &[char], k: usize) -> (r: bool)
    ensures
        r == begins(text@, stop@, k as int),
{
    let n: usize = text.len();
    if k == 0 || k >= stop.len() || k > n {
        return false;
    }
    let mut i: usize = 0;
    while i < k
        invariant
            i <= k,
            k <= n,
            n == text@.len(),
            k < stop@.len(),
            forall|j: int| 0 <= j < i ==> text@[n - k + j] == stop@[j],
        decreases k - i,
    {
        if text[n - k + i] != stop[i] {
            assert(text@.skip(n - k)[i as int] != stop@.take(k as int)[i as int]);
            return false;
        }
        i = i + 1;
    }
    assert(text@.skip(n - k) =~= stop@.take(k as int));
    true
}

fn longest_begin_of(text: &[char], stop: &[char]) -> (k: usize)
    ensures
        k == longest_begin(text@, stop@, stop@.len() - 1),
{
    if stop.len() == 0 {
        return 0;
    }
    let mut k: usize = stop.len() - 1;
    while k > 0
        invariant
            longest_begin(text@, stop@, k as int) == longest_begin(text@, stop@, stop@.len() - 1),
        decreases k,
    {
        if has_begun(text, stop, k) {
            return k;
        }
        k = k - 1;
    }
    0
}

/// The characters of each text.
pub open spec fn chars_of(v: Seq<Vec<char>>) -> Seq<Seq<char>> {
    Seq::new(v.len(), |i: int| v[i]@)
}

fn held_chars_of(text: &[char], stops: &Vec<Vec<char>>) -> (k: usize)
    ensures
        k == held_chars(text@, chars_of(stops@), stops@.len() as int),
        k <= text@.len(),
{
    let mut best: usize = 0;
    let n: usize = stops.len();
    let mut i: usize = 0;
    while i < n
        invariant
            i <= n,
            n == stops@.len(),
            best == held_chars(text@, chars_of(stops@), i as int),
        decreases n - i,
    {
        let k: usize = longest_begin_of(text, stops[i].as_slice());
        if k > best {
            best = k;
        }
        i = i + 1;
    }
    proof {
        lemma_held_chars(text@, chars_of(stops@), n as int);
    }
    best
}

/// The texts as characters.
pub fn split_texts(v: &[String]) -> (r: Vec<Vec<char>>)
    ensures
        chars_of(r@) == texts(v@),
{
    let mut r: Vec<Vec<char>> = Vec::new();
    let n: usize = v.len();
    let mut i: usize = 0;
    while i < n
        invariant
            i <= n,
            n == v@.len(),
            r@.len() == i,
            forall|j: int| 0 <= j < i ==> (#[trigger] r@[j])@ == v@[j]@,
        decreases n - i,
    {
        r.push(to_chars(v[i].as_str()));
        i = i + 1;
    }
    assert(chars_of(r@) =~= texts(v@));
    r
}

/// The bytes of the longest end of `text` that is a proper beginning of one of the stop strings.
pub fn stop_holdback(text: &str, stops: &[String]) -> (n: usize)
    ensures
        n == holdback(text@, texts(stops@)),
{
    let total: usize = text.as_bytes().len();
    let s: Vec<char> = to_chars(text);
    let parts: Vec<Vec<char>> = split_texts(stops);
    let k: usize = held_chars_of(s.as_slice(), &parts);
    let len: usize = s.len();
    let tail: Vec<char> = copy_range(s.as_slice(), len - k, len);
    proof {
        law_byte_len(text@);
        assert(tail@ =~= s@.skip(len - k));
        assert(s@ =~= s@.take(len - k) + tail@);
        lemma_byte_len_concat(s@.take(len - k), tail@);
        lemma_byte_len_bounds(s@.take(len - k));
    }
    bytes_of(tail.as_slice()) as usize
}

/// A piece of output, by the section it belongs to.
pub enum Piece {
    Reasoning(String),
    Content(String),
}

/// A piece of output as a value.
#[verifier::ext_equal]
pub enum PieceView {
    Reasoning(Seq<char>),
    Content(Seq<char>),
}

impl View for Piece {
    type V = PieceView;

    open spec fn view(&self) -> PieceView {
        match self {
            Piece::Reasoning(s) => PieceView::Reasoning(s@),
            Piece::Content(s) => PieceView::Content(s@),
        }
    }
}

pub open spec fn piece_view(p: Option<Piece>) -> Option<PieceView> {
    match p {
        Some(p) => Some(p@),
        None => None,
    }
}

/// What one token leads to.
pub struct Emission {
    /// A stop string ended the output.
    pub stopped: bool,
    /// The `<think>` block ended: from here on the answer's sampling holds.
    pub answering: bool,
    pub piece: Option<Piece>,
}

/// The largest size among the first `n` texts, in bytes.
pub open spec fn longest(stops: Seq<Seq<char>>, n: int) -> int
    decreases n,
{
    if n <= 0 {
        0
    } else if byte_len(stops[n - 1]) > longest(stops, n - 1) {
        byte_len(stops[n - 1])
    } else {
        longest(stops, n - 1)
    }
}

/// The first place from `from` on where one of the first `n` stop strings stands.
pub open spec fn first_hit(text: Seq<char>, stops: Seq<Seq<char>>, from: int, n: int) -> Option<int>
    decreases n,
{
    if n <= 0 {
        None
    } else {
        match (first_hit(text, stops, from, n - 1), find_from(text, stops[n - 1], from)) {
            (Some(a), Some(b)) => Some(if b < a { b } else { a }),
            (Some(a), None) => Some(a),
            (None, b) => b,
        }
    }
}

/// Where the search for stop strings starts: at the unsent text, and as far before it as the
/// longest stop string reaches.
pub open spec fn search_start(c: SectionView, stops: Seq<Seq<char>>) -> int {
    let back = c.sent - longest(stops, stops.len() as int);
    char_from(c.text, if back < 0 { 0 } else { back })
}

/// Where a stop string ends the answer.
pub open spec fn stop_hit(c: SectionView, stops: Seq<Seq<char>>) -> Option<int> {
    first_hit(c.text, stops, search_start(c, stops), stops.len() as int)
}

/// The output of a request as a value.
#[verifier::ext_equal]
pub struct EmitterView {
    pub reasoning: SectionView,
    pub content: SectionView,
    pub in_reasoning: bool,
    /// Drop the white space that comes right after `</think>`.
    pub skip_ws: bool,
    pub n_gen: int,
    pub n_reason: int,
    pub stops: Seq<Seq<char>>,
}

impl EmitterView {
    /// The section that the next token belongs to.
    pub open spec fn section(self) -> SectionView {
        if self.in_reasoning { self.reasoning } else { self.content }
    }

    /// The tokens whose text the next token `next` needs.
    pub open spec fn window(self, next: u32) -> Seq<u32> {
        if self.in_reasoning && next == THINK_CLOSE {
            self.reasoning.ids.skip(self.reasoning.start)
        } else {
            self.section().window(next)
        }
    }

    /// The reasoning section after `next`, before anything of it is sent.
    pub open spec fn reasoned(self, next: u32, decoded: Seq<char>) -> SectionView {
        if next == THINK_CLOSE {
            self.reasoning.finished(decoded)
        } else {
            self.reasoning.pushed(next, decoded)
        }
    }

    /// The answer after `next`, before the stop strings are looked for.
    pub open spec fn answered(self, next: u32, decoded: Seq<char>) -> SectionView {
        let c = self.content.pushed(next, decoded);
        if self.skip_ws { SectionView { text: trim_start(c.text), ..c } } else { c }
    }

    /// The answer after `next`, cut where a stop string begins.
    pub open spec fn cut(self, next: u32, decoded: Seq<char>) -> SectionView {
        let c = self.answered(next, decoded);
        match stop_hit(c, self.stops) {
            Some(p) => SectionView { text: c.text.take(p), ..c },
            None => c,
        }
    }

    /// Whether a stop string ends the output with `next`.
    pub open spec fn stops_at(self, next: u32, decoded: Seq<char>) -> bool {
        !self.in_reasoning && stop_hit(self.answered(next, decoded), self.stops) is Some
    }

    /// How much of the answer stays back after `next`.
    pub open spec fn hold(self, next: u32, decoded: Seq<char>) -> int {
        if self.stops_at(next, decoded) {
            0
        } else {
            holdback(self.cut(next, decoded).text, self.stops)
        }
    }

    /// What is sent with `next`.
    pub open spec fn piece(self, next: u32, decoded: Seq<char>) -> Option<PieceView> {
        if self.in_reasoning {
            let r = self.reasoned(next, decoded);
            match r.piece(r.trailing_white()) {
                Some(s) => Some(PieceView::Reasoning(s)),
                None => None,
            }
        } else {
            match self.cut(next, decoded).piece(self.hold(next, decoded)) {
                Some(s) => Some(PieceView::Content(s)),
                None => None,
            }
        }
    }

    /// The output after `next`.
    pub open spec fn pushed(self, next: u32, decoded: Seq<char>) -> EmitterView {
        if self.in_reasoning {
            let r = self.reasoned(next, decoded);
            EmitterView {
                reasoning: r.after_piece(r.trailing_white()),
                in_reasoning: next != THINK_CLOSE,
                skip_ws: self.skip_ws || next == THINK_CLOSE,
                n_gen: self.n_gen + 1,
                n_reason: self.n_reason + 1,
                ..self
            }
        } else {
            EmitterView {
                content: self.cut(next, decoded).after_piece(self.hold(next, decoded)),
                skip_ws: self.skip_ws && self.answered(next, decoded).text.len() == 0,
                n_gen: self.n_gen + 1,
                ..self
            }
        }
    }

    /// What is sent at the end.
    pub open spec fn last_piece(self, decoded: Seq<char>) -> Option<PieceView> {
        match self.section().finished(decoded).piece(0) {
            Some(s) => Some(
                if self.in_reasoning { PieceView::Reasoning(s) } else { PieceView::Content(s) },
            ),
            None => None,
        }
    }

    pub open spec fn flushed(self, decoded: Seq<char>) -> EmitterView {
        let s = self.section().finished(decoded).after_piece(0);
        if self.in_reasoning {
            EmitterView { reasoning: s, ..self }
        } else {
            EmitterView { content: s, ..self }
        }
    }
}

/// Output state of one answer: routes tokens to the reasoning or the content section and applies
/// the stop strings.
pub struct Emitter {
    reasoning: Section,
    content: Section,
    in_reasoning: bool,
    skip_ws: bool,
    n_gen: usize,
    n_reason: usize,
    stops: Vec<Vec<char>>,
}

impl View for Emitter {
    type V = EmitterView;

    closed spec fn view(&self) -> EmitterView {
        EmitterView {
            reasoning: self.reasoning@,
            content: self.content@,
            in_reasoning: self.in_reasoning,
            skip_ws: self.skip_ws,
            n_gen: self.n_gen as int,
            n_reason: self.n_reason as int,
            stops: chars_of(self.stops@),
        }
    }
}

fn longest_of(stops: &Vec<Vec<char>>) -> (n: u128)
    ensures
        n == longest(chars_of(stops@), stops@.len() as int),
{
    let mut best: u128 = 0;
    let n: usize = stops.len();
    let mut i: usize = 0;
    while i < n
        invariant
            i <= n,
            n == stops@.len(),
            best == longest(chars_of(stops@), i as int),
        decreases n - i,
    {
        let k: u128 = bytes_of(stops[i].as_slice());
        if k > best {
            best = k;
        }
        i = i + 1;
    }
    best
}

pub(crate) proof fn lemma_first_hit(text: Seq<char>, stops: Seq<Seq<char>>, from: int, n: int)
    requires
        0 <= n <= stops.len(),
        0 <= from,
    ensures
        match first_hit(text, stops, from, n) {
            Some(p) => {
                &&& from <= p <= text.len()
                &&& exists|i: int| 0 <= i < n && #[trigger] found_at(text, stops[i], p)
                &&& forall|i: int, q: int|
                    0 <= i < n && from <= q < p ==> !#[trigger] found_at(text, stops[i], q)
            },
            None => forall|i: int, q: int|
                0 <= i < n && from <= q ==> !#[trigger] found_at(text, stops[i], q),
        },
    decreases n,
{
    if n > 0 {
        lemma_first_hit(text, stops, from, n - 1);
        lemma_find_from(text, stops[n - 1], from);
        match first_hit(text, stops, from, n) {
            Some(p) => {
                if found_at(text, stops[n - 1], p) {
                } else {
                    let i = choose|i: int| 0 <= i < n - 1 && #[trigger] found_at(text, stops[i], p);
                    assert(found_at(text, stops[i], p));
                }
            },
            None => {},
        }
    }
}

fn first_hit_of(text: &[char], stops: &Vec<Vec<char>>, from: usize) -> (r: Option<usize>)
    ensures
        match first_hit(text@, chars_of(stops@), from as int, stops@.len() as int) {
            Some(p) => r == Some(p as usize) && p <= text@.len(),
            None => r is None,
        },
{
    let mut hit: Option<usize> = None;
    let n: usize = stops.len();
    let mut i: usize = 0;
    while i < n
        invariant
            i <= n,
            n == stops@.len(),
            match first_hit(text@, chars_of(stops@), from as int, i as int) {
                Some(p) => hit == Some(p as usize) && 0 <= p <= text@.len() && p <= usize::MAX,
                None => hit is None,
            },
        decreases n - i,
    {
        let len: usize = text.len();
        match find(text, stops[i].as_slice(), from) {
            Some(p) => {
                hit = match hit {
                    Some(h) => Some(if p < h { p } else { h }),
                    None => Some(p),
                };
            },
            None => {},
        }
        i = i + 1;
    }
    hit
}

impl Section {
    /// Drop white space at the start of the text.
    fn drop_leading_white(&mut self)
        requires
            old(self).sound(),
        ensures
            final(self).sound(),
            final(self)@ == (SectionView { text: trim_start(old(self)@.text), ..old(self)@ }),
    {
        let k: usize = leading_white(self.text.as_slice());
        let n: usize = self.text.len();
        let rest: Vec<char> = copy_range(self.text.as_slice(), k, n);
        self.bytes = bytes_of(rest.as_slice());
        self.text = rest;
        assert(self@ =~= (SectionView { text: trim_start(old(self)@.text), ..old(self)@ }));
    }

    /// Cut the text where the first stop string begins; whether there was one.
    fn cut_at_stop(&mut self, stops: &Vec<Vec<char>>) -> (r: bool)
        requires
            old(self).sound(),
        ensures
            final(self).sound(),
            match stop_hit(old(self)@, chars_of(stops@)) {
                Some(p) => r && final(self)@ == (SectionView {
                    text: old(self)@.text.take(p),
                    ..old(self)@
                }),
                None => !r && final(self)@ == old(self)@,
            },
    {
        let most: u128 = longest_of(stops);
        let back: u128 = if self.sent < most { 0 } else { self.sent - most };
        let from: usize = char_from_of(self.text.as_slice(), self.bytes, back);
        match first_hit_of(self.text.as_slice(), stops, from) {
            Some(p) => {
                proof {
                    lemma_first_hit(self.text@, chars_of(stops@), from as int, stops@.len() as int);
                }
                let head: Vec<char> = copy_range(self.text.as_slice(), 0, p);
                assert(head@ =~= self.text@.take(p as int));
                self.bytes = bytes_of(head.as_slice());
                self.text = head;
                assert(self@ =~= (SectionView { text: old(self)@.text.take(p as int), ..old(self)@ }));
                true
            },
            None => false,
        }
    }
}

impl Emitter {
    pub closed spec fn sound(&self) -> bool {
        &&& self.reasoning.sound()
        &&& self.content.sound()
        &&& self.n_reason <= self.n_gen
    }

    /// Output that starts as reasoning where the prompt left a `<think>` block open.
    pub fn new(stop: &Vec<String>, thinking_open: bool) -> (e: Emitter)
        ensures
            e.sound(),
            e@ == (EmitterView {
                reasoning: SectionView::empty(),
                content: SectionView::empty(),
                in_reasoning: thinking_open,
                skip_ws: false,
                n_gen: 0,
                n_reason: 0,
                stops: texts(stop@),
            }),
    {
        Emitter {
            reasoning: Section::new(),
            content: Section::new(),
            in_reasoning: thinking_open,
            skip_ws: false,
            n_gen: 0,
            n_reason: 0,
            stops: split_texts(stop.as_slice()),
        }
    }

    /// Tokens generated so far.
    pub fn generated(&self) -> (n: usize)
        ensures
            n == self@.n_gen,
    {
        self.n_gen
    }

    /// Of those, the tokens of the `<think>` block.
    pub fn reasoned(&self) -> (n: usize)
        ensures
            n == self@.n_reason,
    {
        self.n_reason
    }

    /// The tokens to decode before `next` is pushed.
    pub fn window(&self, next: u32) -> (w: Vec<u32>)
        requires
            self.sound(),
        ensures
            w@ == self@.window(next),
    {
        if self.in_reasoning {
            if next == THINK_CLOSE {
                self.reasoning.held()
            } else {
                self.reasoning.window(next)
            }
        } else {
            self.content.window(next)
        }
    }

    /// The tokens to decode before the output is flushed.
    pub fn held(&self) -> (w: Vec<u32>)
        requires
            self.sound(),
        ensures
            w@ == self@.section().ids.skip(self@.section().start),
    {
        if self.in_reasoning { self.reasoning.held() } else { self.content.held() }
    }

    /// Emit one generated token, `decoded` being the text of its window.
    pub fn push(&mut self, next: u32, decoded: &str) -> (r: Emission)
        requires
            old(self).sound(),
            old(self)@.n_gen < usize::MAX,
        ensures
            final(self).sound(),
            final(self)@ == old(self)@.pushed(next, decoded@),
            r.stopped == old(self)@.stops_at(next, decoded@),
            r.answering == (old(self)@.in_reasoning && next == THINK_CLOSE),
            piece_view(r.piece) == old(self)@.piece(next, decoded@),
    {
        self.n_gen = self.n_gen + 1;
        if self.in_reasoning {
            self.n_reason = self.n_reason + 1;
            let close: bool = next == THINK_CLOSE;
            if close {
                self.in_reasoning = false;
                self.skip_ws = true;
                self.reasoning.finish(decoded);
            } else {
                self.reasoning.push(next, decoded);
            }
            // trailing white space before </think> is template formatting, not content
            let hold: u128 = self.reasoning.trailing_ws();
            let piece: Option<Piece> = match self.reasoning.take(hold) {
                Some(s) => Some(Piece::Reasoning(s)),
                None => None,
            };
            assert(self@ =~= old(self)@.pushed(next, decoded@));
            Emission { stopped: false, answering: close, piece }
        } else {
            self.content.push(next, decoded);
            if self.skip_ws {
                self.content.drop_leading_white();
                if self.content.text.len() > 0 {
                    self.skip_ws = false;
                }
            }
            let ghost whole = self.content@;
            assert(whole =~= old(self)@.answered(next, decoded@));
            let stopped: bool = self.content.cut_at_stop(&self.stops);
            assert(self.content@ =~= old(self)@.cut(next, decoded@));
            let hold: u128 = if stopped {
                0
            } else {
                let n: usize = self.content.text.len();
                let k: usize = held_chars_of(self.content.text.as_slice(), &self.stops);
                let tail: Vec<char> = copy_range(self.content.text.as_slice(), n - k, n);
                assert(tail@ =~= self.content.text@.skip(n - k));
                bytes_of(tail.as_slice())
            };
            let piece: Option<Piece> = match self.content.take(hold) {
                Some(s) => Some(Piece::Content(s)),
                None => None,
            };
            assert(self@ =~= old(self)@.pushed(next, decoded@));
            Emission { stopped, answering: false, piece }
        }
    }

    /// The output ends, `decoded` being the text of the held window.
    pub fn flush(&mut self, decoded: &str) -> (piece: Option<Piece>)
        requires
            old(self).sound(),
        ensures
            final(self).sound(),
            final(self)@ == old(self)@.flushed(decoded@),
            piece_view(piece) == old(self)@.last_piece(decoded@),
    {
        if self.in_reasoning {
            self.reasoning.finish(decoded);
            let piece: Option<Piece> = match self.reasoning.take(0) {
                Some(s) => Some(Piece::Reasoning(s)),
                None => None,
            };
            assert(self@ =~= old(self)@.flushed(decoded@));
            piece
        } else {
            self.content.finish(decoded);
            let piece: Option<Piece> = match self.content.take(0) {
                Some(s) => Some(Piece::Content(s)),
                None => None,
            };
            assert(self@ =~= old(self)@.flushed(decoded@));
            piece
        }
    }
}

/// No stop string stands in the answer, and none has begun in what was sent of it.
pub open spec fn clean(c: SectionView, stops: Seq<Seq<char>>) -> bool {
    let k = whole_chars(c.text, c.sent);
    &&& 0 <= c.sent
    &&& byte_len(c.text.take(k)) == c.sent
    &&& forall|i: int, q: int| 0 <= i < stops.len() ==> !#[trigger] found_at(c.text, stops[i], q)
    &&& forall|i: int, j: int|
        0 <= i < stops.len() && #[trigger] begins(c.text, stops[i], j) ==> j <= c.text.len() - k
}

/// With `more` behind a clean text, a stop string can only stand where nothing was sent.
pub(crate) proof fn lemma_stop_is_unsent(c: SectionView, more: Seq<char>, stops: Seq<Seq<char>>, i: int, q: int)
    requires
        clean(c, stops),
        0 <= i < stops.len(),
        stops[i].len() > 0,
        found_at(c.text + more, stops[i], q),
    ensures
        q >= whole_chars(c.text, c.sent),
{
    let k = whole_chars(c.text, c.sent);
    lemma_whole_chars(c.text, c.sent);
    let all = c.text + more;
    let stop = stops[i];
    if q < k {
        if q + stop.len() <= c.text.len() {
            assert(c.text.subrange(q, q + stop.len()) =~= all.subrange(q, q + stop.len()));
            assert(found_at(c.text, stop, q));
        } else {
            let j = c.text.len() - q;
            assert(c.text.skip(q) =~= stop.take(j)) by {
                assert forall|t: int| 0 <= t < j implies c.text.skip(q)[t] == stop.take(j)[t] by {
                    assert(all.subrange(q, q + stop.len())[t] == stop[t]);
                }
            }
            assert(begins(c.text, stop, j));
        }
    }
}

/// No stop string is ever sent, nor text that may still turn out to be one: while the output
/// goes on, none stands in the answer, and none has begun in what was sent. Where a stop string
/// ends the output, none stands in the answer, and all of the answer has been sent.
pub proof fn law_stop_is_never_sent(e: EmitterView, next: u32, decoded: Seq<char>)
    requires
        !e.in_reasoning,
        e.skip_ws ==> e.content.text.len() == 0,
        e.content.window_emitted >= 0,
        forall|i: int| 0 <= i < e.stops.len() ==> (#[trigger] e.stops[i]).len() > 0,
        clean(e.content, e.stops),
    ensures
        !e.stops_at(next, decoded) ==> clean(e.pushed(next, decoded).content, e.stops),
        e.stops_at(next, decoded) ==> ({
            let c = e.pushed(next, decoded).content;
            &&& c.sent == byte_len(c.text)
            &&& forall|i: int, q: int|
                0 <= i < e.stops.len() ==> !#[trigger] found_at(c.text, e.stops[i], q)
        }),
{
    let c = e.content;
    let stops = e.stops;
    let k = whole_chars(c.text, c.sent);
    lemma_whole_chars(c.text, c.sent);
    let a = e.answered(next, decoded);
    let pushed = c.pushed(next, decoded);
    let more = if e.skip_ws {
        trim_start(pushed.text)
    } else {
        pushed.text.skip(c.text.len() as int)
    };
    assert(a.text =~= c.text + more);
    assert(a.sent == c.sent);
    // the search starts at or before the unsent text
    let from = search_start(a, stops);
    assert(a.text.take(k) =~= c.text.take(k));
    lemma_whole_prefix(a.text, k);
    assert(from <= k) by {
        let m = longest(stops, stops.len() as int);
        lemma_longest(stops, stops.len() as int);
        let back = if c.sent - m < 0 { 0 } else { c.sent - m };
        lemma_whole_chars(a.text, back);
        let f = whole_chars(a.text, back);
        if f > k {
            lemma_byte_len_grows(a.text, k, f);
        }
        if f == k && byte_len(a.text.take(f)) < back {
        }
    }
    assert(from >= 0) by {
        let m = longest(stops, stops.len() as int);
        let back = if c.sent - m < 0 { 0 } else { c.sent - m };
        lemma_whole_chars(a.text, back);
    }
    lemma_first_hit(a.text, stops, from, stops.len() as int);
    let t = e.cut(next, decoded);
    assert forall|i: int, q: int| 0 <= i < stops.len() implies !#[trigger] found_at(t.text, stops[i], q) by {
        if found_at(t.text, stops[i], q) {
            assert(a.text.subrange(q, q + stops[i].len()) =~= t.text.subrange(q, q + stops[i].len()));
            assert(found_at(a.text, stops[i], q));
            lemma_stop_is_unsent(c, more, stops, i, q);
        }
    }
    // the cut leaves what was sent
    assert(k <= t.text.len()) by {
        match stop_hit(a, stops) {
            Some(p) => {
                let i = choose|i: int| 0 <= i < stops.len() && #[trigger] found_at(a.text, stops[i], p);
                lemma_stop_is_unsent(c, more, stops, i, p);
            },
            None => {},
        }
    }
    assert(t.text.take(k) =~= c.text.take(k));
    let hold = e.hold(next, decoded);
    let held = held_chars(t.text, stops, stops.len() as int);
    lemma_held_chars(t.text, stops, stops.len() as int);
    let end = if e.stops_at(next, decoded) { t.text.len() as int } else { t.text.len() - held };
    assert(t.text =~= t.text.take(end) + t.text.skip(end));
    lemma_byte_len_concat(t.text.take(end), t.text.skip(end));
    assert(e.stops_at(next, decoded) ==> t.text.skip(end) =~= Seq::<char>::empty());
    assert(byte_len(t.text) - hold == byte_len(t.text.take(end)));
    lemma_byte_len_bounds(t.text.take(end));
    lemma_whole_prefix(t.text, end);
    assert(t.send_end(hold) == end);
    let f = e.pushed(next, decoded).content;
    lemma_whole_prefix(t.text, k);
    if byte_len(t.text.take(end)) > c.sent {
        assert(f.sent == byte_len(t.text.take(end)));
        assert(whole_chars(f.text, f.sent) == end);
    } else {
        assert(whole_chars(f.text, f.sent) == k);
        if k < end {
            lemma_byte_len_grows(t.text, k, end);
        }
        if end < k {
            lemma_byte_len_grows(t.text, end, k);
        }
    }
    if !e.stops_at(next, decoded) {
        assert forall|i: int, j: int|
            0 <= i < stops.len() && #[trigger] begins(f.text, stops[i], j) implies j <= f.text.len()
            - whole_chars(f.text, f.sent) by {
            assert(begins(t.text, stops[i], j));
            let q = t.text.len() - j;
            if q < k {
                let m = c.text.len() - q;
                assert(c.text.skip(q) =~= stops[i].take(m)) by {
                    assert forall|x: int| 0 <= x < m implies c.text.skip(q)[x] == stops[i].take(m)[x] by {
                        assert(t.text.skip(q)[x] == stops[i].take(j)[x]);
                    }
                }
                assert(begins(c.text, stops[i], m));
            }
        }
    } else if end < k {
        lemma_byte_len_grows(t.text, end, k);
    }
}

/// An answer without text is clean, whatever the stop strings.
pub proof fn law_empty_answer_is_clean(stops: Seq<Seq<char>>)
    requires
        forall|i: int| 0 <= i < stops.len() ==> (#[trigger] stops[i]).len() > 0,
    ensures
        clean(SectionView::empty(), stops),
{
    let c = SectionView::empty();
    assert(c.text.take(0) =~= c.text);
}

proof fn lemma_longest(stops: Seq<Seq<char>>, n: int)
    requires
        0 <= n <= stops.len(),
    ensures
        longest(stops, n) >= 0,
    decreases n,
{
    if n > 0 {
        lemma_longest(stops, n - 1);
    }
}

/// The search for stop strings begins early enough to find every one.
proof fn lemma_search_covers(e: EmitterView, next: u32, decoded: Seq<char>)
    requires
        !e.in_reasoning,
        e.skip_ws ==> e.content.text.len() == 0,
        e.content.window_emitted >= 0,
        forall|i: int| 0 <= i < e.stops.len() ==> (#[trigger] e.stops[i]).len() > 0,
        clean(e.content, e.stops),
    ensures
        ({
            let a = e.answered(next, decoded);
            let from = search_start(a, e.stops);
            &&& from >= 0
            &&& forall|i: int, q: int|
                0 <= i < e.stops.len() && #[trigger] found_at(a.text, e.stops[i], q) ==> q >= from
        }),
{
    let c = e.content;
    let stops = e.stops;
    let k = whole_chars(c.text, c.sent);
    lemma_whole_chars(c.text, c.sent);
    let a = e.answered(next, decoded);
    let pushed = c.pushed(next, decoded);
    let more = if e.skip_ws {
        trim_start(pushed.text)
    } else {
        pushed.text.skip(c.text.len() as int)
    };
    assert(a.text =~= c.text + more);
    let from = search_start(a, stops);
    assert(a.text.take(k) =~= c.text.take(k));
    lemma_whole_prefix(a.text, k);
    let m = longest(stops, stops.len() as int);
    lemma_longest(stops, stops.len() as int);
    let back = if c.sent - m < 0 { 0 } else { c.sent - m };
    lemma_whole_chars(a.text, back);
    let f = whole_chars(a.text, back);
    if f > k {
        lemma_byte_len_grows(a.text, k, f);
    }
    assert(from <= k);
    assert forall|i: int, q: int|
        0 <= i < stops.len() && #[trigger] found_at(a.text, stops[i], q) implies q >= from by {
        lemma_stop_is_unsent(c, more, stops, i, q);
    }
}

/// The output ends exactly where a stop string stands in the answer, and then the answer is all of
/// the text before the first of them; otherwise it is all of the text.
pub proof fn law_answer_ends_at_the_first_stop(e: EmitterView, next: u32, decoded: Seq<char>)
    requires
        !e.in_reasoning,
        e.skip_ws ==> e.content.text.len() == 0,
        e.content.window_emitted >= 0,
        forall|i: int| 0 <= i < e.stops.len() ==> (#[trigger] e.stops[i]).len() > 0,
        clean(e.content, e.stops),
    ensures
        ({
            let all = e.answered(next, decoded).text;
            let c = e.pushed(next, decoded).content.text;
            &&& e.stops_at(next, decoded) <==> exists|i: int, q: int|
                0 <= i < e.stops.len() && #[trigger] found_at(all, e.stops[i], q)
            &&& !e.stops_at(next, decoded) ==> c == all
            &&& e.stops_at(next, decoded) ==> c.len() <= all.len() && c == all.take(c.len() as int) && exists|
                i: int,
            |
                0 <= i < e.stops.len() && #[trigger] found_at(all, e.stops[i], c.len() as int)
            &&& forall|i: int, q: int|
                0 <= i < e.stops.len() && #[trigger] found_at(all, e.stops[i], q) ==> q >= c.len()
        }),
{
    lemma_search_covers(e, next, decoded);
    let a = e.answered(next, decoded);
    let stops = e.stops;
    let from = search_start(a, stops);
    lemma_first_hit(a.text, stops, from, stops.len() as int);
    match stop_hit(a, stops) {
        Some(p) => {
            let i = choose|i: int| 0 <= i < stops.len() && #[trigger] found_at(a.text, stops[i], p);
            assert(found_at(a.text, stops[i], p));
            assert(e.pushed(next, decoded).content.text =~= a.text.take(p));
        },
        None => {
            assert forall|i: int, q: int| 0 <= i < stops.len() implies !#[trigger] found_at(
                a.text,
                stops[i],
                q,
            ) by {
                if found_at(a.text, stops[i], q) {
                    assert(q >= from);
                }
            }
        },
    }
}

/// The text of an answer is that of its tokens, white space that follows the thought aside.
pub proof fn law_answer_takes_the_text_of_its_tokens(e: EmitterView, next: u32, decoded: Seq<char>)
    requires
        !e.in_reasoning,
    ensures
        !e.skip_ws ==> e.answered(next, decoded).text == e.content.pushed(next, decoded).text,
        e.skip_ws ==> e.answered(next, decoded).text == trim_start(e.content.pushed(next, decoded).text),
        e.pushed(next, decoded).skip_ws <==> e.skip_ws && e.answered(next, decoded).text.len() == 0,
        e.pushed(next, decoded).reasoning == e.reasoning,
        !e.pushed(next, decoded).in_reasoning,
{
}

/// Tokens are thought until the one that closes the thought, which is counted with them; behind it
/// they are answered, and leading white space of the answer is dropped.
pub proof fn law_tokens_are_counted_where_they_belong(e: EmitterView, next: u32, decoded: Seq<char>)
    ensures
        ({
            let f = e.pushed(next, decoded);
            &&& f.n_gen == e.n_gen + 1
            &&& e.in_reasoning ==> f.n_reason == e.n_reason + 1
            &&& !e.in_reasoning ==> f.n_reason == e.n_reason
            &&& f.in_reasoning <==> e.in_reasoning && next != 248069
            &&& e.in_reasoning && next == 248069 ==> f.skip_ws
            &&& e.in_reasoning && next != 248069 ==> f.skip_ws == e.skip_ws
            &&& e.in_reasoning ==> f.content == e.content
            &&& f.stops == e.stops
        }),
{
}

/// The marks of an unfinished character at the end of a text are left out, and nothing else is.
pub proof fn law_only_unfinished_characters_are_held(s: Seq<char>)
    ensures
        stable_part(s).len() <= s.len(),
        stable_part(s) == s.take(stable_part(s).len() as int),
        forall|i: int| stable_part(s).len() <= i < s.len() ==> #[trigger] s[i] == '\u{FFFD}',
        stable_part(s).len() > 0 ==> stable_part(s).last() != '\u{FFFD}',
    decreases s.len(),
{
    if s.len() > 0 && s.last() == REPLACEMENT {
        let r = s.drop_last();
        law_only_unfinished_characters_are_held(r);
        assert(r.take(stable_part(r).len() as int) =~= s.take(stable_part(r).len() as int));
        assert forall|i: int| stable_part(s).len() <= i < s.len() implies #[trigger] s[i] == '\u{FFFD}' by {
            if i < r.len() {
                assert(r[i] == s[i]);
            }
        }
    } else {
        assert(s.take(s.len() as int) =~= s);
    }
}

/// A section takes over the finished part of what its tokens decode to, without what it has of them
/// already; where all of it is finished, the next token starts anew.
pub proof fn law_section_takes_over_finished_text(c: SectionView, id: u32, decoded: Seq<char>)
    requires
        0 <= c.window_emitted,
    ensures
        ({
            let d = c.pushed(id, decoded);
            let ready = stable_part(decoded);
            &&& d.ids == c.ids.push(id)
            &&& d.sent == c.sent
            &&& c.window_emitted == 0 ==> d.text == c.text + ready
            &&& byte_len(ready) <= c.window_emitted ==> d.text == c.text
            &&& byte_len(ready) > c.window_emitted ==> exists|k: int|
                0 <= k <= ready.len() && d.text == c.text + #[trigger] ready.skip(k) && byte_len(ready.take(k))
                    <= c.window_emitted && (k < ready.len() ==> byte_len(ready.take(k + 1))
                    > c.window_emitted)
            &&& ready.len() == decoded.len() ==> d.start == d.ids.len() && d.window_emitted == 0
            &&& ready.len() < decoded.len() ==> d.start == c.start && d.window_emitted == if byte_len(ready)
                > c.window_emitted {
                byte_len(ready)
            } else {
                c.window_emitted
            }
        }),
{
    let ready = stable_part(decoded);
    let d = c.pushed(id, decoded);
    let k = whole_chars(ready, c.window_emitted);
    lemma_whole_chars(ready, c.window_emitted);
    law_only_unfinished_characters_are_held(decoded);
    lemma_byte_len_bounds(ready);
    assert(ready.skip(0) =~= ready);
    if byte_len(ready) > c.window_emitted {
        assert(d.text =~= c.text + ready.skip(k));
    }
    if c.window_emitted == 0 {
        lemma_byte_len_bounds(ready.take(k));
        assert(k == 0);
        if ready.len() == 0 {
            assert(c.text + ready =~= c.text);
        }
    }
}

/// Of the thought everything is sent but the white space at its end, and of the answer everything but
/// what may belong to a stop string: sending goes on exactly that far.
pub proof fn law_sending_goes_as_far_as_it_may(c: SectionView, hold: int)
    requires
        0 <= hold <= byte_len(c.text),
        0 <= c.sent,
    ensures
        ({
            let d = c.after_piece(hold);
            &&& d.text == c.text
            &&& c.sent <= d.sent
            &&& d.sent <= c.sent || d.sent <= byte_len(c.text) - hold
            &&& forall|k: int|
                0 <= k <= c.text.len() && #[trigger] byte_len(c.text.take(k)) <= byte_len(c.text) - hold
                    ==> byte_len(c.text.take(k)) <= d.sent
            &&& c.piece(hold) is Some <==> d.sent > c.sent
        }),
{
    let end = byte_len(c.text) - hold;
    lemma_whole_chars(c.text, end);
    let e = whole_chars(c.text, end);
    assert forall|k: int|
        0 <= k <= c.text.len() && #[trigger] byte_len(c.text.take(k)) <= end implies byte_len(c.text.take(k))
        <= c.after_piece(hold).sent by {
        if k > e {
            lemma_byte_len_grows(c.text, e + 1, k);
        } else {
            lemma_byte_len_grows(c.text, k, e);
        }
    }
}

/// Which bytes are held back: of the thought the white space at its end; of the answer what may belong
/// to a stop string, and nothing once one has ended it.
pub proof fn law_what_is_held_back(e: EmitterView, next: u32, decoded: Seq<char>)
    ensures
        ({
            let f = e.pushed(next, decoded);
            &&& e.in_reasoning ==> {
                let r = e.reasoned(next, decoded);
                f.reasoning == r.after_piece(byte_len(r.text) - byte_len(trim_end(r.text)))
            }
            &&& !e.in_reasoning ==> {
                let c = e.cut(next, decoded);
                f.content == c.after_piece(
                    if e.stops_at(next, decoded) {
                        0
                    } else {
                        holdback(c.text, e.stops)
                    },
                )
            }
            &&& e.in_reasoning && next != 248069 ==> e.reasoned(next, decoded) == e.reasoning.pushed(
                next,
                decoded,
            )
            &&& e.in_reasoning && next == 248069 ==> e.reasoned(next, decoded) == e.reasoning.finished(decoded)
        }),
{
}

} // verus!
