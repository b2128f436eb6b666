//! What the engine decides while it runs a request: what of the state it can keep, where prefill
//! batches end, when generation ends, and which role each token gets.
use crate::emit::{Emission, Emitter, Piece};
use crate::emit::{piece_view, PieceView};
use crate::key::ImageRow;
use crate::role::{Role, Span};
use crate::role::covers;
use vstd::prelude::*;

verus! {

/// Tokens of one page of the key/value pool.
pub const PAGE_TOKENS: usize = 64;

/// Encoded images kept for prefix reuse and repeated prompts (multi-turn chats resend them).
pub const EMBD_CACHE_ENTRIES: usize = 16;

#[derive(Clone, Copy, Debug, PartialEq)]
pub struct Sampling<F> {
    pub temp: F,
    pub top_k: usize,
    pub top_p: F,
}

/// How a request wants its output; `F` is the type of temperatures and probabilities.
pub struct GenParams<F> {
    pub max_tokens: usize,
    /// Sampling for the answer (and for everything when `think` is none).
    pub sampling: Sampling<F>,
    /// Sampling used while inside the `<think>` block; switched at `</think>`.
    pub think: Option<Sampling<F>>,
    pub seed: u64,
    pub stop: Vec<String>,
    /// The prompt ends inside an open `<think>` block: output is reasoning until `</think>`.
    pub thinking_open: bool,
}

impl<F: Copy> GenParams<F> {
    /// The sampling that the output starts with.
    pub open spec fn first_sampling(self) -> Sampling<F> {
        match self.think {
            Some(t) => if self.thinking_open { t } else { self.sampling },
            None => self.sampling,
        }
    }

    pub fn first(&self) -> (s: Sampling<F>)
        ensures
            s == self.first_sampling(),
    {
        if self.thinking_open {
            match self.think {
                Some(t) => t,
                None => self.sampling,
            }
        } else {
            self.sampling
        }
    }

    /// The seed of choice `index` of a request for several.
    pub fn seed_of(&self, index: usize) -> (s: u64)
        ensures
            s == (self.seed as int + (index as u64) as int) % 0x1_0000_0000_0000_0000,
    {
        self.seed.wrapping_add(index as u64)
    }
}

/// Why an output ended.
#[derive(Clone, Copy, Debug, PartialEq, Eq, Structural)]
pub enum Reason {
    Stop,
    Length,
    Cancelled,
}

impl Reason {
    pub open spec fn text(self) -> Seq<char> {
        match self {
            Reason::Stop => "stop"@,
            Reason::Length => "length"@,
            Reason::Cancelled => "cancelled"@,
        }
    }

    pub fn name(self) -> (s: &'static str)
        ensures
            s@ == self.text(),
    {
        match self {
            Reason::Stop => "stop",
            Reason::Length => "length",
            Reason::Cancelled => "cancelled",
        }
    }
}

/// The end of an output; `F` is the type of durations and means.
pub struct Finish<F> {
    pub reason: Reason,
    pub completion_tokens: usize,
    pub reasoning_tokens: usize,
    pub gen_s: F,
    /// Speculative decoding: draft tokens proposed and accepted (0/0 without it).
    pub drafted: usize,
    pub accepted: usize,
    /// Mean experts per (token, layer) over the request with the mass routing policy (0 = fixed).
    pub experts: F,
}

/// What the engine tells the network side about one output.
pub enum Event<F> {
    Error(String),
    /// Prefill finished: prompt tokens, of which `reused` were already in the state (`restored`
    /// of them from the prefix cache, in `restore_s`); images encoded and the time they took.
    Prefilled {
        prompt_tokens: usize,
        reused: usize,
        restored: usize,
        restore_s: F,
        prompt_s: F,
        images: usize,
        image_s: F,
    },
    Reasoning(String),
    Content(String),
    Done(Finish<F>),
}

impl<F> Event<F> {
    /// The event that carries a piece of output.
    pub fn of_piece(piece: Piece) -> (e: Event<F>)
        ensures
            match piece@ {
                PieceView::Reasoning(s) => e matches Event::Reasoning(t) && t@ == s,
                PieceView::Content(s) => e matches Event::Content(t) && t@ == s,
            },
    {
        match piece {
            Piece::Reasoning(s) => Event::Reasoning(s),
            Piece::Content(s) => Event::Content(s),
        }
    }
}

// ---- pages ----------------------------------------------------------------------------------

/// Pages of the private tail of one choice: what the prompt leaves on its last page, and the
/// output.
pub open spec fn tail_pages(prompt: int, output: int) -> int {
    (prompt % (PAGE_TOKENS as int) + output + (PAGE_TOKENS - 1)) / (PAGE_TOKENS as int)
}

/// Pages that a prompt shared by `choices` outputs reserves.
pub open spec fn reserved_pages(prompt: int, output: int, choices: int) -> int {
    prompt / (PAGE_TOKENS as int) + tail_pages(prompt, output) * choices
}

/// Whether the reservation can be counted.
pub open spec fn countable(prompt: int, output: int, choices: int) -> bool {
    &&& prompt % (PAGE_TOKENS as int) + output + (PAGE_TOKENS - 1) <= usize::MAX
    &&& reserved_pages(prompt, output, choices) <= usize::MAX
}

/// Conservative shared-prompt page reservation, including a private append tail per choice.
pub fn continuous_pages(prompt: usize, output: usize, choices: usize) -> (r: Option<usize>)
    ensures
        match r {
            Some(n) => countable(prompt as int, output as int, choices as int) && n
                == reserved_pages(prompt as int, output as int, choices as int),
            None => !countable(prompt as int, output as int, choices as int),
        },
{
    let tokens: usize = (prompt % PAGE_TOKENS).checked_add(output)?.checked_add(PAGE_TOKENS - 1)?;
    let tail: usize = tokens / PAGE_TOKENS;
    proof {
        assert(tail * choices >= 0) by (nonlinear_arith)
            requires
                tail >= 0,
                choices >= 0,
        ;
    }
    (prompt / PAGE_TOKENS).checked_add(tail.checked_mul(choices)?)
}

/// The reservation holds the whole prompt and output of each choice: the shared pages and one
/// private tail together have room for all of its tokens.
pub proof fn law_reservation_covers(prompt: int, output: int, choices: int)
    requires
        0 <= prompt,
        0 <= output,
        0 <= choices,
    ensures
        PAGE_TOKENS * (prompt / (PAGE_TOKENS as int) + tail_pages(prompt, output)) >= prompt + output,
        reserved_pages(prompt, output, choices) == prompt / (PAGE_TOKENS as int) + choices
            * tail_pages(prompt, output),
{
    assert(tail_pages(prompt, output) * choices == choices * tail_pages(prompt, output))
        by (nonlinear_arith);
}

/// Fewer choices reserve no more pages, and can be counted where more can.
pub proof fn law_fewer_choices_need_no_more(prompt: int, output: int, fewer: int, more: int)
    requires
        0 <= prompt,
        0 <= output,
        0 <= fewer <= more,
    ensures
        reserved_pages(prompt, output, fewer) <= reserved_pages(prompt, output, more),
        countable(prompt, output, more) ==> countable(prompt, output, fewer),
{
    let t = tail_pages(prompt, output);
    assert(t * fewer <= t * more) by (nonlinear_arith)
        requires
            0 <= t,
            0 <= fewer <= more,
    ;
}

// ---- roles ----------------------------------------------------------------------------------

/// The first `k` spans, as far as they start before `n`, cut at `n`.
pub open spec fn clipped(spans: Seq<Span>, n: int, k: int) -> Seq<Span>
    decreases k,
{
    if k <= 0 {
        Seq::empty()
    } else {
        let s = spans[k - 1];
        let rest = clipped(spans, n, k - 1);
        if s.start < n {
            rest.push(Span { start: s.start, end: if s.end < n { s.end } else { n as usize }, role: s.role })
        } else {
            rest
        }
    }
}

/// The spans that start before `n`, cut at `n`.
pub fn clipped_spans(spans: &[Span], n: usize) -> (out: Vec<Span>)
    ensures
        out@ == clipped(spans@, n as int, spans@.len() as int),
{
    let mut out: Vec<Span> = Vec::new();
    let m: usize = spans.len();
    let mut i: usize = 0;
    while i < m
        invariant
            i <= m,
            m == spans@.len(),
            out@ == clipped(spans@, n as int, i as int),
        decreases m - i,
    {
        let s = spans[i];
        if s.start < n {
            out.push(Span::new(s.start, if s.end < n { s.end } else { n }, s.role));
        }
        i = i + 1;
    }
    out
}

/// The roles of `n` stepped tokens: the prompt's spans, then the reasoning and the answer that
/// were generated behind a prompt of `p` tokens.
pub open spec fn all_spans(spans: Seq<Span>, n: int, p: int, thinking: bool, n_reason: int) -> Seq<Span> {
    let r = if !thinking { p } else if p + n_reason < n { p + n_reason } else { n };
    let a = clipped(spans, n, spans.len() as int);
    let b = if r > p {
        a.push(Span { start: p as usize, end: r as usize, role: Role::Reasoning })
    } else {
        a
    };
    if n > r {
        b.push(Span { start: r as usize, end: n as usize, role: Role::Assistant })
    } else {
        b
    }
}

/// The roles of the `n` tokens that were stepped, `p` of them the prompt's and `n_reason` of the
/// others generated inside an open `<think>` block.
pub fn final_spans(spans: &[Span], n: usize, p: usize, thinking: bool, n_reason: usize) -> (out: Vec<
    Span,
>)
    ensures
        out@ == all_spans(spans@, n as int, p as int, thinking, n_reason as int),
{
    let mut out: Vec<Span> = clipped_spans(spans, n);
    let r: usize = if !thinking {
        p
    } else if p < n && n_reason < n - p {
        p + n_reason
    } else {
        n
    };
    if r > p {
        out.push(Span::new(p, r, Role::Reasoning));
    }
    if n > r {
        out.push(Span::new(r, n, Role::Assistant));
    }
    out
}

proof fn lemma_clipped_covers(spans: Seq<Span>, n: int, k: int, i: int, t: int)
    requires
        0 <= i < k <= spans.len(),
        spans[i].holds(t),
        t < n <= usize::MAX,
    ensures
        covers(clipped(spans, n, k), t),
    decreases k,
{
    if i < k - 1 {
        lemma_clipped_covers(spans, n, k - 1, i, t);
        let rest = clipped(spans, n, k - 1);
        let j = choose|j: int| 0 <= j < rest.len() && (#[trigger] rest[j]).holds(t);
        assert(clipped(spans, n, k)[j] == rest[j]);
    } else {
        let all = clipped(spans, n, k);
        assert(all[all.len() - 1].holds(t));
    }
}

/// Where the prompt's spans give every prompt token a role, every stepped token has one.
pub proof fn law_every_stepped_token_has_a_role(
    spans: Seq<Span>,
    n: int,
    p: int,
    thinking: bool,
    n_reason: int,
    t: int,
)
    requires
        0 <= p <= n <= usize::MAX,
        0 <= n_reason,
        0 <= t < n,
        forall|q: int| 0 <= q < p ==> #[trigger] covers(spans, q),
    ensures
        covers(all_spans(spans, n, p, thinking, n_reason), t),
{
    let all = all_spans(spans, n, p, thinking, n_reason);
    let a = clipped(spans, n, spans.len() as int);
    if t < p {
        assert(covers(spans, t));
        let i = choose|i: int| 0 <= i < spans.len() && (#[trigger] spans[i]).holds(t);
        lemma_clipped_covers(spans, n, spans.len() as int, i, t);
        let j = choose|j: int| 0 <= j < a.len() && (#[trigger] a[j]).holds(t);
        assert(all[j] == a[j]);
    } else {
        let r = if !thinking { p } else if p + n_reason < n { p + n_reason } else { n };
        if t < r {
            assert(all[a.len() as int].holds(t));
        } else {
            assert(all[all.len() - 1].holds(t));
        }
    }
}

// ---- the state left behind by a request -----------------------------------------------------

/// Of the first `k` images, those that start before row `l`.
pub open spec fn images_before(images: Seq<ImageRow>, l: int, k: int) -> Seq<ImageRow>
    decreases k,
{
    if k <= 0 {
        Seq::empty()
    } else if images[k - 1].0 < l {
        images_before(images, l, k - 1).push(images[k - 1])
    } else {
        images_before(images, l, k - 1)
    }
}

fn images_before_of(images: &[ImageRow], l: usize) -> (out: Vec<ImageRow>)
    ensures
        out@ == images_before(images@, l as int, images@.len() as int),
{
    let mut out: Vec<ImageRow> = Vec::new();
    let n: usize = images.len();
    let mut i: usize = 0;
    while i < n
        invariant
            i <= n,
            n == images@.len(),
            out@ == images_before(images@, l as int, i as int),
        decreases n - i,
    {
        if images[i].0 < l {
            out.push(images[i]);
        }
        i = i + 1;
    }
    out
}

fn same_images(a: &Vec<ImageRow>, b: &Vec<ImageRow>) -> (r: bool)
    ensures
        r == (a@ == b@),
{
    let n: usize = a.len();
    if n != b.len() {
        return false;
    }
    let mut i: usize = 0;
    while i < n
        invariant
            i <= n,
            n == a@.len(),
            n == b@.len(),
            forall|j: int| 0 <= j < i ==> a@[j] == b@[j],
        decreases n - i,
    {
        if a[i].0 != b[i].0 || a[i].1 != b[i].1 || a[i].2 != b[i].2 {
            assert(a@[i as int] != b@[i as int]);
            return false;
        }
        i = i + 1;
    }
    assert(a@ =~= b@);
    true
}

/// Whether `ids` begins with `head`.
pub fn starts_with(ids: &[u32], head: &[u32]) -> (r: bool)
    ensures
        r == (head@.len() <= ids@.len() && ids@.take(head@.len() as int) == head@),
{
    let n: usize = head.len();
    if ids.len() < n {
        return false;
    }
    let mut i: usize = 0;
    while i < n
        invariant
            i <= n,
            n == head@.len(),
            n <= ids@.len(),
            forall|j: int| 0 <= j < i ==> ids@[j] == head@[j],
        decreases n - i,
    {
        if ids[i] != head[i] {
            assert(ids@.take(n as int)[i as int] != head@[i as int]);
            return false;
        }
        i = i + 1;
    }
    assert(ids@.take(n as int) =~= head@);
    true
}

/// What the model's state holds, as values.
#[verifier::ext_equal]
pub struct SteppedView {
    pub ids: Seq<u32>,
    /// Images among the stepped rows; prefix reuse requires them to match.
    pub images: Seq<ImageRow>,
    /// Whether the logits behind the last stepped token are at hand.
    pub logits: bool,
}

impl SteppedView {
    /// Whether the state can be kept for a prompt: the prompt extends the stepped tokens, holds
    /// the same images among them, and either goes on or finds its logits.
    pub open spec fn reusable(self, ids: Seq<u32>, images: Seq<ImageRow>) -> bool {
        let l = self.ids.len() as int;
        &&& l > 0
        &&& l <= ids.len()
        &&& ids.take(l) == self.ids
        &&& images_before(self.images, l, self.images.len() as int) == images_before(
            images,
            l,
            images.len() as int,
        )
        &&& l < ids.len() || self.logits
    }
}

/// The tokens that the model's state holds.
pub struct Stepped {
    ids: Vec<u32>,
    images: Vec<ImageRow>,
    logits: bool,
}

impl View for Stepped {
    type V = SteppedView;

    closed spec fn view(&self) -> SteppedView {
        SteppedView { ids: self.ids@, images: self.images@, logits: self.logits }
    }
}

impl Stepped {
    pub fn new() -> (s: Stepped)
        ensures
            s@ == (SteppedView { ids: Seq::empty(), images: Seq::empty(), logits: false }),
    {
        Stepped { ids: Vec::new(), images: Vec::new(), logits: false }
    }

    pub fn ids(&self) -> (v: &Vec<u32>)
        ensures
            v@ == self@.ids,
    {
        &self.ids
    }

    pub fn len(&self) -> (n: usize)
        ensures
            n == self@.ids.len(),
    {
        self.ids.len()
    }

    pub fn is_empty(&self) -> (r: bool)
        ensures
            r == (self@.ids.len() == 0),
    {
        self.ids.len() == 0
    }

    /// Start a prompt: how many of its tokens the state already holds. Where it cannot be kept,
    /// the state counts as empty from here on (the model has to be reset).
    pub fn begin(&mut self, ids: &[u32], images: &[ImageRow]) -> (reuse: usize)
        ensures
            if old(self)@.reusable(ids@, images@) {
                reuse == old(self)@.ids.len() && *final(self) == *old(self)
            } else {
                reuse == 0 && final(self)@ == (SteppedView {
                    ids: Seq::empty(),
                    images: Seq::empty(),
                    logits: false,
                })
            },
    {
        let l: usize = self.ids.len();
        if l > 0 && starts_with(ids, self.ids.as_slice()) && same_images(
            &images_before_of(self.images.as_slice(), l),
            &images_before_of(images, l),
        ) && (l < ids.len() || self.logits) {
            return l;
        }
        self.ids = Vec::new();
        self.images = Vec::new();
        self.logits = false;
        0
    }

    /// Tokens `ids[a..b]` were stepped (or restored).
    pub fn extend(&mut self, ids: &[u32], a: usize, b: usize)
        requires
            a <= b <= ids@.len(),
        ensures
            final(self)@ == (SteppedView {
                ids: old(self)@.ids + ids@.subrange(a as int, b as int),
                ..old(self)@
            }),
    {
        let ghost before = self.ids@;
        let mut i: usize = a;
        while i < b
            invariant
                a <= i <= b,
                b <= ids@.len(),
                self.ids@ == before + ids@.subrange(a as int, i as int),
                self.images == old(self).images,
                self.logits == old(self).logits,
            decreases b - i,
        {
            self.ids.push(ids[i]);
            i = i + 1;
        }
        assert(self@ =~= (SteppedView {
            ids: old(self)@.ids + ids@.subrange(a as int, b as int),
            ..old(self)@
        }));
    }

    /// One generated token was stepped.
    pub fn push(&mut self, id: u32)
        ensures
            final(self)@ == (SteppedView { ids: old(self)@.ids.push(id), ..old(self)@ }),
    {
        self.ids.push(id);
        assert(self@ =~= (SteppedView { ids: old(self)@.ids.push(id), ..old(self)@ }));
    }

    /// Prefill is over: the state holds those of the prompt's images that it reached.
    pub fn settle(&mut self, images: &[ImageRow], logits: bool)
        ensures
            final(self)@ == (SteppedView {
                ids: old(self)@.ids,
                images: images_before(images@, old(self)@.ids.len() as int, images@.len() as int),
                logits,
            }),
    {
        let l: usize = self.ids.len();
        self.images = images_before_of(images, l);
        self.logits = logits;
        assert(self@ =~= (SteppedView {
            ids: old(self)@.ids,
            images: images_before(images@, old(self)@.ids.len() as int, images@.len() as int),
            logits,
        }));
    }

    /// Whether the logits behind the last token are at hand.
    pub fn set_logits(&mut self, logits: bool)
        ensures
            final(self)@ == (SteppedView { logits, ..old(self)@ }),
    {
        self.logits = logits;
        assert(self@ =~= (SteppedView { logits, ..old(self)@ }));
    }
}

/// A prompt that repeats the stepped tokens and goes on, with the images of the last prompt and
/// none of its own among those tokens, finds the state reusable.
pub proof fn law_extended_prompt_is_reused(s: SteppedView, more: Seq<u32>, images: Seq<ImageRow>)
    requires
        s.ids.len() > 0,
        more.len() > 0,
        s.images == images_before(images, s.ids.len() as int, images.len() as int),
        forall|i: int| 0 <= i < s.images.len() ==> (#[trigger] s.images[i]).0 < s.ids.len(),
    ensures
        s.reusable(s.ids + more, images),
{
    let l = s.ids.len() as int;
    assert((s.ids + more).take(l) =~= s.ids);
    lemma_all_before(s.images, l, s.images.len() as int);
    assert(s.images.take(s.images.len() as int) =~= s.images);
}

proof fn lemma_all_before(images: Seq<ImageRow>, l: int, k: int)
    requires
        0 <= k <= images.len(),
        forall|i: int| 0 <= i < images.len() ==> (#[trigger] images[i]).0 < l,
    ensures
        images_before(images, l, k) == images.take(k),
    decreases k,
{
    if k > 0 {
        lemma_all_before(images, l, k - 1);
        assert(images.take(k) =~= images.take(k - 1).push(images[k - 1]));
    } else {
        assert(images.take(0) =~= Seq::<ImageRow>::empty());
    }
}

// ---- prefill --------------------------------------------------------------------------------

/// The first snapshot point behind position `a`, from entry `i` on.
pub open spec fn next_point(points: Seq<(usize, Role)>, a: int, i: int) -> Option<int>
    decreases points.len() - i,
{
    if i < 0 || i >= points.len() {
        None
    } else if points[i].0 > a {
        Some(points[i].0 as int)
    } else {
        next_point(points, a, i + 1)
    }
}

/// Where the prefill batch that starts at `a` ends: after at most `batch` tokens, at the end of
/// the prompt or at the next snapshot point, whichever comes first.
pub open spec fn batch_end(a: int, len: int, batch: int, points: Seq<(usize, Role)>) -> int {
    let b = if a + batch < len { a + batch } else { len };
    match next_point(points, a, 0) {
        Some(p) => if p < b { p } else { b },
        None => b,
    }
}

/// Where the prefill batch that starts at `a` ends.
pub fn prefill_end(a: usize, len: usize, batch: usize, points: &[(usize, Role)]) -> (b: usize)
    requires
        a <= len,
    ensures
        b == batch_end(a as int, len as int, batch as int, points@),
{
    let b: usize = if batch < len - a { a + batch } else { len };
    let n: usize = points.len();
    let mut i: usize = 0;
    while i < n
        invariant
            i <= n,
            n == points@.len(),
            b == if a + batch < len { a + batch } else { len as int },
            next_point(points@, a as int, i as int) == next_point(points@, a as int, 0),
        decreases n - i,
    {
        let e: usize = points[i].0;
        if e > a {
            return if e < b { e } else { b };
        }
        i = i + 1;
    }
    b
}

/// The role of the snapshot point at `b`, from entry `i` on.
pub open spec fn point_role(points: Seq<(usize, Role)>, b: int, i: int) -> Option<Role>
    decreases points.len() - i,
{
    if i < 0 || i >= points.len() {
        None
    } else if points[i].0 == b {
        Some(points[i].1)
    } else {
        point_role(points, b, i + 1)
    }
}

/// The role of the snapshot point at `b`; none where there is none.
pub fn snapshot_role(points: &[(usize, Role)], b: usize) -> (r: Option<Role>)
    ensures
        r == point_role(points@, b as int, 0),
{
    let n: usize = points.len();
    let mut i: usize = 0;
    while i < n
        invariant
            i <= n,
            n == points@.len(),
            point_role(points@, b as int, i as int) == point_role(points@, b as int, 0),
        decreases n - i,
    {
        let p = points[i];
        if p.0 == b {
            return Some(p.1);
        }
        i = i + 1;
    }
    None
}

/// Snapshot points in order, each once.
pub open spec fn points_in_order(points: Seq<(usize, Role)>) -> bool {
    forall|i: int, j: int|
        0 <= i < j < points.len() ==> (#[trigger] points[i]).0 < (#[trigger] points[j]).0
}

/// Where the batches of a prefill from `a` to `len` end.
pub open spec fn batch_ends(a: int, len: int, batch: int, points: Seq<(usize, Role)>) -> Seq<int>
    decreases len - a,
{
    let b = batch_end(a, len, batch, points);
    if a >= len || b <= a { Seq::empty() } else { seq![b] + batch_ends(b, len, batch, points) }
}

proof fn lemma_next_point(points: Seq<(usize, Role)>, a: int, i: int)
    requires
        0 <= i <= points.len(),
        points_in_order(points),
    ensures
        match next_point(points, a, i) {
            Some(p) => p > a && (exists|k: int| i <= k < points.len() && (#[trigger] points[k]).0 == p)
                && forall|k: int|
                i <= k < points.len() ==> (#[trigger] points[k]).0 <= a || points[k].0 >= p,
            None => forall|k: int| i <= k < points.len() ==> (#[trigger] points[k]).0 <= a,
        },
    decreases points.len() - i,
{
    if i < points.len() && points[i].0 <= a {
        lemma_next_point(points, a, i + 1);
    }
}

/// Every batch makes progress and none is longer than allowed; together they reach the end of
/// the prompt, and each snapshot point on the way is the end of a batch.
pub proof fn law_batches_stop_at_snapshot_points(
    a: int,
    len: int,
    batch: int,
    points: Seq<(usize, Role)>,
    k: int,
)
    requires
        0 <= a < len,
        batch > 0,
        points_in_order(points),
        0 <= k < points.len(),
        a < points[k].0 <= len,
    ensures
        a < batch_end(a, len, batch, points) <= a + batch,
        batch_end(a, len, batch, points) <= len,
        batch_ends(a, len, batch, points).last() == len,
        batch_ends(a, len, batch, points).contains(points[k].0 as int),
    decreases len - a,
{
    lemma_next_point(points, a, 0);
    lemma_batches_reach_the_end(a, len, batch, points);
    let b = batch_end(a, len, batch, points);
    let ends = batch_ends(a, len, batch, points);
    let rest = batch_ends(b, len, batch, points);
    assert(ends =~= seq![b] + rest);
    if points[k].0 == b {
        assert(ends[0] == b);
    } else {
        assert(points[k].0 > b);
        law_batches_stop_at_snapshot_points(b, len, batch, points, k);
        let j = choose|j: int| 0 <= j < rest.len() && rest[j] == points[k].0 as int;
        assert(ends[j + 1] == points[k].0 as int);
    }
}

proof fn lemma_batches_reach_the_end(a: int, len: int, batch: int, points: Seq<(usize, Role)>)
    requires
        0 <= a < len,
        batch > 0,
        points_in_order(points),
    ensures
        a < batch_end(a, len, batch, points) <= len,
        batch_ends(a, len, batch, points).len() > 0,
        batch_ends(a, len, batch, points).last() == len,
    decreases len - a,
{
    lemma_next_point(points, a, 0);
    let b = batch_end(a, len, batch, points);
    let rest = batch_ends(b, len, batch, points);
    assert(batch_ends(a, len, batch, points) =~= seq![b] + rest);
    if b < len {
        lemma_batches_reach_the_end(b, len, batch, points);
        assert((seq![b] + rest).last() == rest.last());
    } else {
        assert(rest =~= Seq::<int>::empty());
    }
}

/// The rows of one image inside a batch.
#[derive(Clone, Copy, Debug, PartialEq, Eq, Structural)]
pub struct Segment {
    /// Which image.
    pub image: usize,
    /// Its first row in the batch.
    pub row: usize,
    pub n: usize,
    /// How many of the image's rows lie before the batch.
    pub skip: usize,
}

/// The rows of the first `k` images inside the batch `[a, b)`.
pub open spec fn segments_of(images: Seq<ImageRow>, a: int, b: int, k: int) -> Seq<Segment>
    decreases k,
{
    if k <= 0 {
        Seq::empty()
    } else {
        let im = images[k - 1];
        let s0 = if im.0 > a { im.0 as int } else { a };
        let s1 = if im.0 + im.2 < b { im.0 + im.2 } else { b };
        let rest = segments_of(images, a, b, k - 1);
        if s0 < s1 {
            rest.push(
                Segment {
                    image: (k - 1) as usize,
                    row: (s0 - a) as usize,
                    n: (s1 - s0) as usize,
                    skip: (s0 - im.0) as usize,
                },
            )
        } else {
            rest
        }
    }
}

/// The image rows inside the batch `[a, b)`.
pub fn segments(images: &[ImageRow], a: usize, b: usize) -> (out: Vec<Segment>)
    requires
        forall|i: int|
            0 <= i < images@.len() ==> (#[trigger] images@[i]).0 + images@[i].2 <= usize::MAX,
    ensures
        out@ == segments_of(images@, a as int, b as int, images@.len() as int),
{
    let mut out: Vec<Segment> = Vec::new();
    let n: usize = images.len();
    let mut i: usize = 0;
    while i < n
        invariant
            i <= n,
            n == images@.len(),
            forall|j: int|
                0 <= j < images@.len() ==> (#[trigger] images@[j]).0 + images@[j].2 <= usize::MAX,
            out@ == segments_of(images@, a as int, b as int, i as int),
        decreases n - i,
    {
        let im = images[i];
        let s0: usize = if im.0 > a { im.0 } else { a };
        let s1: usize = if im.0 + im.2 < b { im.0 + im.2 } else { b };
        if s0 < s1 {
            out.push(Segment { image: i, row: s0 - a, n: s1 - s0, skip: s0 - im.0 });
        }
        i = i + 1;
    }
    out
}

/// A row of an image that falls into the batch stands in one of the segments, at its place in
/// the batch and in the image.
pub proof fn law_segments_hold_every_image_row(
    images: Seq<ImageRow>,
    a: int,
    b: int,
    k: int,
    i: int,
    row: int,
)
    requires
        0 <= a <= b <= usize::MAX,
        0 <= i < k <= images.len(),
        images.len() <= usize::MAX,
        images[i].0 <= row < images[i].0 + images[i].2,
        a <= row < b,
        images[i].0 + images[i].2 <= usize::MAX,
    ensures
        exists|s: Segment|
            #[trigger] segments_of(images, a, b, k).contains(s) && s.image == i && s.row <= row - a
                < s.row + s.n && (row - a) - s.row == (row - images[i].0) - s.skip,
    decreases k,
{
    let all = segments_of(images, a, b, k);
    if i < k - 1 {
        law_segments_hold_every_image_row(images, a, b, k - 1, i, row);
        let rest = segments_of(images, a, b, k - 1);
        let s = choose|s: Segment|
            #[trigger] rest.contains(s) && s.image == i && s.row <= row - a < s.row + s.n && (row - a)
                - s.row == (row - images[i].0) - s.skip;
        let j = choose|j: int| 0 <= j < rest.len() && rest[j] == s;
        assert(all[j] == s);
        assert(all.contains(s));
    } else {
        let s = all.last();
        assert(all[all.len() - 1] == s);
        assert(all.contains(s));
    }
}

// ---- generation -----------------------------------------------------------------------------

/// Whether a token is among the ones that end an output.
pub fn is_stop(stop_ids: &[u32], token: u32) -> (r: bool)
    ensures
        r == stop_ids@.contains(token),
{
    let n: usize = stop_ids.len();
    let mut i: usize = 0;
    while i < n
        invariant
            i <= n,
            n == stop_ids@.len(),
            forall|j: int| 0 <= j < i ==> stop_ids@[j] != token,
        decreases n - i,
    {
        if stop_ids[i] == token {
            assert(stop_ids@[i as int] == token);
            return true;
        }
        i = i + 1;
    }
    false
}

/// The tokens that end an output: the end-of-turn token, and the text's end where it is another.
pub fn stop_tokens(eos: u32, bos: u32) -> (v: Vec<u32>)
    ensures
        v@ == if bos != eos { seq![eos, bos] } else { seq![eos] },
{
    let mut v: Vec<u32> = Vec::new();
    v.push(eos);
    if bos != eos {
        v.push(bos);
    }
    assert(v@ =~= if bos != eos { seq![eos, bos] } else { seq![eos] });
    v
}

/// What follows from one sampled token.
pub struct Turn {
    /// Why the output ends; none while it goes on.
    pub end: Option<Reason>,
    /// The `<think>` block ended: from here on the answer's sampling holds.
    pub answering: bool,
    pub piece: Option<Piece>,
}

/// Take a sampled token: a cancelled request ends, a stop token ends the output unseen, and any
/// other token is emitted, which may complete a stop string or use up the request's tokens.
pub fn accept(
    em: &mut Emitter,
    max_tokens: usize,
    stop_ids: &[u32],
    cancelled: bool,
    token: u32,
    decoded: &str,
) -> (t: Turn)
    requires
        old(em).sound(),
        old(em)@.n_gen < usize::MAX,
    ensures
        final(em).sound(),
        cancelled ==> t.end == Some(Reason::Cancelled),
        !cancelled && stop_ids@.contains(token) ==> t.end == Some(Reason::Stop),
        cancelled || stop_ids@.contains(token) ==> {
            &&& *final(em) == *old(em)
            &&& !t.answering
            &&& t.piece is None
        },
        !cancelled && !stop_ids@.contains(token) ==> {
            &&& final(em)@ == old(em)@.pushed(token, decoded@)
            &&& t.answering == (old(em)@.in_reasoning && token == crate::emit::THINK_CLOSE)
            &&& piece_view(t.piece) == old(em)@.piece(token, decoded@)
            &&& t.end == if old(em)@.stops_at(token, decoded@) {
                Some(Reason::Stop)
            } else if old(em)@.n_gen + 1 >= max_tokens {
                Some(Reason::Length)
            } else {
                None
            }
        },
{
    if cancelled {
        return Turn { end: Some(Reason::Cancelled), answering: false, piece: None };
    }
    if is_stop(stop_ids, token) {
        return Turn { end: Some(Reason::Stop), answering: false, piece: None };
    }
    let e: Emission = em.push(token, decoded);
    let end: Option<Reason> = if e.stopped {
        Some(Reason::Stop)
    } else if em.generated() >= max_tokens {
        Some(Reason::Length)
    } else {
        None
    };
    Turn { end, answering: e.answering, piece: e.piece }
}

/// Take a token that a speculative round has already accepted: only a stop token or a stop string
/// ends the output there; the request's tokens are counted with the round's pending token.
pub fn accept_draft(em: &mut Emitter, stop_ids: &[u32], token: u32, decoded: &str) -> (t: Turn)
    requires
        old(em).sound(),
        old(em)@.n_gen < usize::MAX,
    ensures
        final(em).sound(),
        stop_ids@.contains(token) ==> t.end == Some(Reason::Stop) && *final(em) == *old(em)
            && !t.answering && t.piece is None,
        !stop_ids@.contains(token) ==> {
            &&& final(em)@ == old(em)@.pushed(token, decoded@)
            &&& t.answering == (old(em)@.in_reasoning && token == crate::emit::THINK_CLOSE)
            &&& piece_view(t.piece) == old(em)@.piece(token, decoded@)
            &&& t.end == if old(em)@.stops_at(token, decoded@) { Some(Reason::Stop) } else { None }
        },
{
    if is_stop(stop_ids, token) {
        return Turn { end: Some(Reason::Stop), answering: false, piece: None };
    }
    let e: Emission = em.push(token, decoded);
    let end: Option<Reason> = if e.stopped { Some(Reason::Stop) } else { None };
    Turn { end, answering: e.answering, piece: e.piece }
}

// ---- encoded images -------------------------------------------------------------------------

/// Which encoded images are kept, oldest first.
pub struct KeptImages {
    order: Vec<u64>,
}

impl View for KeptImages {
    type V = Seq<u64>;

    closed spec fn view(&self) -> Seq<u64> {
        self.order@
    }
}

impl KeptImages {
    /// No more than the allowed number, each once.
    pub closed spec fn sound(&self) -> bool {
        self.order@.len() <= EMBD_CACHE_ENTRIES && self.order@.no_duplicates()
    }

    pub fn new() -> (k: KeptImages)
        ensures
            k.sound(),
            k@ == Seq::<u64>::empty(),
    {
        KeptImages { order: Vec::new() }
    }

    pub fn has(&self, hash: u64) -> (r: bool)
        ensures
            r == self@.contains(hash),
    {
        let n: usize = self.order.len();
        let mut i: usize = 0;
        while i < n
            invariant
                i <= n,
                n == self.order@.len(),
                forall|j: int| 0 <= j < i ==> self.order@[j] != hash,
            decreases n - i,
        {
            if self.order[i] == hash {
                assert(self.order@[i as int] == hash);
                return true;
            }
            i = i + 1;
        }
        false
    }

    /// Keep an image that was just encoded; the one to drop for it, if there is one.
    pub fn keep(&mut self, hash: u64) -> (dropped: Option<u64>)
        requires
            old(self).sound(),
            !old(self)@.contains(hash),
        ensures
            final(self).sound(),
            final(self)@.len() <= EMBD_CACHE_ENTRIES,
            if old(self)@.len() < EMBD_CACHE_ENTRIES {
                dropped is None && final(self)@ == old(self)@.push(hash)
            } else {
                dropped == Some(old(self)@[0]) && final(self)@ == old(self)@.skip(1).push(hash)
            },
    {
        let ghost before = self.order@;
        self.order.push(hash);
        assert(self.order@.no_duplicates());
        if self.order.len() > EMBD_CACHE_ENTRIES {
            let old_hash: u64 = self.order.remove(0);
            assert(self.order@ =~= before.skip(1).push(hash));
            assert(self.order@.no_duplicates());
            Some(old_hash)
        } else {
            None
        }
    }
}

/// An output that begins inside the thought begins with the thought's sampling, where there is one;
/// any other with the answer's.
pub proof fn law_first_sampling<F: Copy>(p: GenParams<F>)
    ensures
        p.thinking_open && p.think is Some ==> p.first_sampling() == p.think->0,
        !p.thinking_open || p.think is None ==> p.first_sampling() == p.sampling,
{
}

/// A page holds 64 tokens, and no page is reserved that a choice could not need.
pub proof fn law_reservation_is_tight(prompt: int, output: int)
    requires
        0 <= prompt,
        0 <= output,
    ensures
        64 * (prompt / 64 + tail_pages(prompt, output)) < prompt + output + 64,
        reserved_pages(prompt, output, 1) == prompt / 64 + tail_pages(prompt, output),
        reserved_pages(prompt, output, 0) == prompt / 64,
{
    let t = tail_pages(prompt, output);
    assert(t * 1 == t && t * 0 == 0) by (nonlinear_arith);
}

/// The spans before a cut keep their places and roles; one over the cut is cut, and what starts
/// behind it is left out.
pub proof fn law_clipped_spans(spans: Seq<Span>, x: Span, n: usize)
    ensures
        ({
            let a = clipped(spans, n as int, spans.len() as int);
            let b = clipped(spans.push(x), n as int, spans.len() as int + 1);
            &&& x.start >= n ==> b == a
            &&& x.start < n && x.end <= n ==> b == a.push(x)
            &&& x.start < n && x.end > n ==> b == a.push(Span { start: x.start, end: n, role: x.role })
        }),
        clipped(Seq::empty(), n as int, 0) == Seq::<Span>::empty(),
{
    lemma_clipped_of_more(spans, x, n as int, spans.len() as int);
    assert(spans.push(x)[spans.len() as int] == x);
}

proof fn lemma_clipped_of_more(spans: Seq<Span>, x: Span, n: int, k: int)
    requires
        k <= spans.len(),
    ensures
        clipped(spans.push(x), n, k) == clipped(spans, n, k),
    decreases k,
{
    if k > 0 {
        lemma_clipped_of_more(spans, x, n, k - 1);
        assert(spans.push(x)[k - 1] == spans[k - 1]);
    }
}

/// Behind the prompt come the tokens of the thought, as many as were thought, and then those of the
/// answer.
pub proof fn law_output_is_thought_and_then_answer(
    spans: Seq<Span>,
    n: usize,
    p: usize,
    thinking: bool,
    n_reason: usize,
)
    requires
        p <= n,
    ensures
        ({
            let a = clipped(spans, n as int, spans.len() as int);
            let all = all_spans(spans, n as int, p as int, thinking, n_reason as int);
            let thought = thinking && n_reason > 0 && n > p;
            &&& n == p ==> all == a
            &&& n > p && !thought ==> all == a.push(Span { start: p, end: n, role: Role::Assistant })
            &&& thought && p + n_reason >= n ==> all == a.push(
                Span { start: p, end: n, role: Role::Reasoning },
            )
            &&& thought && p + n_reason < n ==> all == a.push(
                Span { start: p, end: (p + n_reason) as usize, role: Role::Reasoning },
            ).push(Span { start: (p + n_reason) as usize, end: n, role: Role::Assistant })
        }),
{
}

/// Of the images those before a row count, in their order.
pub proof fn law_images_before(images: Seq<ImageRow>, x: ImageRow, l: int)
    ensures
        images_before(Seq::empty(), l, 0) == Seq::<ImageRow>::empty(),
        x.0 < l ==> images_before(images.push(x), l, images.len() as int + 1) == images_before(
            images,
            l,
            images.len() as int,
        ).push(x),
        x.0 >= l ==> images_before(images.push(x), l, images.len() as int + 1) == images_before(
            images,
            l,
            images.len() as int,
        ),
{
    lemma_images_of_more(images, x, l, images.len() as int);
    assert(images.push(x)[images.len() as int] == x);
}

proof fn lemma_images_of_more(images: Seq<ImageRow>, x: ImageRow, l: int, k: int)
    requires
        k <= images.len(),
    ensures
        images_before(images.push(x), l, k) == images_before(images, l, k),
    decreases k,
{
    if k > 0 {
        lemma_images_of_more(images, x, l, k - 1);
        assert(images.push(x)[k - 1] == images[k - 1]);
    }
}

/// A state is kept only for a prompt that begins with what was stepped, with the same images there,
/// and that goes on behind it unless its logits are at hand.
pub proof fn law_kept_state_is_of_the_prompt(s: SteppedView, ids: Seq<u32>, images: Seq<ImageRow>)
    requires
        s.reusable(ids, images),
    ensures
        0 < s.ids.len() <= ids.len(),
        forall|i: int| 0 <= i < s.ids.len() ==> ids[i] == s.ids[i],
        s.ids.len() == ids.len() ==> s.logits,
        images_before(s.images, s.ids.len() as int, s.images.len() as int) == images_before(
            images,
            s.ids.len() as int,
            images.len() as int,
        ),
{
    assert forall|i: int| 0 <= i < s.ids.len() implies ids[i] == s.ids[i] by {
        assert(ids.take(s.ids.len() as int)[i] == ids[i]);
    }
}

/// A batch is as long as it may be: it ends before its full length and before the end of the prompt
/// only at a snapshot point, and never goes over one.
pub proof fn law_batch_is_as_long_as_it_may_be(
    a: int,
    len: int,
    batch: int,
    points: Seq<(usize, Role)>,
    k: int,
)
    requires
        0 <= a <= len,
        batch >= 0,
        points_in_order(points),
        0 <= k < points.len(),
    ensures
        ({
            let b = batch_end(a, len, batch, points);
            &&& b <= len && b <= a + batch
            &&& !(a < points[k].0 < b)
            &&& b < len && b < a + batch ==> exists|j: int| 0 <= j < points.len() && (#[trigger] points[j]).0 == b
        }),
{
    lemma_next_point(points, a, 0);
}

/// The role of a snapshot is that of the point at its place; there is none where there is no point.
pub proof fn law_snapshot_has_the_role_of_its_point(points: Seq<(usize, Role)>, b: int, k: int)
    requires
        points_in_order(points),
        0 <= k < points.len(),
    ensures
        points[k].0 == b ==> point_role(points, b, 0) == Some(points[k].1),
        (forall|j: int| 0 <= j < points.len() ==> (#[trigger] points[j]).0 != b) ==> point_role(points, b, 0)
            is None,
{
    lemma_point_role(points, b, 0, k);
}

proof fn lemma_point_role(points: Seq<(usize, Role)>, b: int, i: int, k: int)
    requires
        points_in_order(points),
        0 <= i <= points.len(),
        0 <= k < points.len(),
    ensures
        points[k].0 == b && i <= k ==> point_role(points, b, i) == Some(points[k].1),
        (forall|j: int| 0 <= j < points.len() ==> (#[trigger] points[j]).0 != b) ==> point_role(points, b, i)
            is None,
    decreases points.len() - i,
{
    if i < points.len() {
        lemma_point_role(points, b, i + 1, k);
    }
}

/// Every segment is a part of its image inside the batch.
pub proof fn law_segments_lie_in_the_batch(images: Seq<ImageRow>, a: int, b: int, k: int, j: int)
    requires
        0 <= a <= b <= usize::MAX,
        0 <= k <= images.len(),
        images.len() <= usize::MAX,
        forall|i: int| 0 <= i < images.len() ==> (#[trigger] images[i]).0 + images[i].2 <= usize::MAX,
        0 <= j < segments_of(images, a, b, k).len(),
    ensures
        ({
            let s = segments_of(images, a, b, k)[j];
            &&& s.image < k
            &&& s.n > 0
            &&& s.row + s.n <= b - a
            &&& s.skip + s.n <= images[s.image as int].2
            &&& a + s.row == images[s.image as int].0 + s.skip
        }),
    decreases k,
{
    if k > 0 && j < segments_of(images, a, b, k - 1).len() {
        law_segments_lie_in_the_batch(images, a, b, k - 1, j);
    } else {
        assert(images[k - 1].0 + images[k - 1].2 <= usize::MAX);
    }
}

} // verus!
