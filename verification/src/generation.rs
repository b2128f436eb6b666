//! Generating from the command line: the prompt's text, what of the output is shown and when it
//! ends, and what the benchmarks feed the model.
use crate::chat::IMAGE_PLACEHOLDER;
use crate::emit::{stable_len, stable_part};
use crate::text::{concat, copy_range, decimal, from_chars, owned, push_decimal, push_text, to_chars};
use crate::text::{trim_end, trim_end_len};
use crate::utf8::{byte_len, bytes_of, law_byte_len, lemma_byte_len_grows, lemma_whole_prefix};
use crate::utf8::{whole_chars, whole_chars_of};
use vstd::prelude::*;

verus! {

/// A text `n` times.
pub open spec fn times(s: Seq<char>, n: int) -> Seq<char>
    decreases n,
{
    if n <= 0 { Seq::empty() } else { times(s, n - 1) + s }
}

/// A question in the chat template, up to where the answer begins.
pub open spec fn chat_text(text: Seq<char>, images: int, no_think: bool) -> Seq<char> {
    "<|im_start|>user\n"@ + times(IMAGE_PLACEHOLDER@, images) + trim_end(text)
        + "<|im_end|>\n<|im_start|>assistant\n"@ + if no_think {
        "<think>\n\n</think>\n\n"@
    } else {
        "<think>\n"@
    }
}

/// A question in the chat template, with its images before it.
pub fn chat_prompt(text: &str, images: usize, no_think: bool) -> (s: String)
    ensures
        s@ == chat_text(text@, images as int, no_think),
{
    let mut s: String = owned("<|im_start|>user\n");
    let ghost head = s@;
    let mut i: usize = 0;
    assert(s@ =~= head + times(IMAGE_PLACEHOLDER@, 0));
    while i < images
        invariant
            i <= images,
            s@ == head + times(IMAGE_PLACEHOLDER@, i as int),
        decreases images - i,
    {
        push_text(&mut s, IMAGE_PLACEHOLDER);
        i = i + 1;
        assert(s@ =~= head + times(IMAGE_PLACEHOLDER@, i as int));
    }
    let c: Vec<char> = to_chars(text);
    let n: usize = trim_end_len(c.as_slice());
    let t: Vec<char> = copy_range(c.as_slice(), 0, n);
    push_text(&mut s, from_chars(t.as_slice()).as_str());
    push_text(&mut s, "<|im_end|>\n<|im_start|>assistant\n");
    push_text(&mut s, if no_think { "<think>\n\n</think>\n\n" } else { "<think>\n" });
    s
}

/// A question in the chat template as the probe of the draft head asks it: as it stands, and
/// without a thought.
pub fn probe_prompt(prompt: &str) -> (s: String)
    ensures
        s@ == "<|im_start|>user\n"@ + prompt@ + "<|im_end|>\n<|im_start|>assistant\n<think>\n\n</think>\n\n"@,
{
    let mut s: String = concat("<|im_start|>user\n", prompt);
    push_text(&mut s, "<|im_end|>\n<|im_start|>assistant\n<think>\n\n</think>\n\n");
    s
}

/// Images need the chat template and the vision encoder.
pub fn check_images(images: usize, chat: bool, vision: bool) -> (r: Result<(), String>)
    ensures
        if images == 0 || (chat && vision) {
            r is Ok
        } else {
            r matches Err(e) && e@ == "images need chat mode and a vision overlay (--chat --vision)"@
        },
{
    if images == 0 || (chat && vision) {
        Ok(())
    } else {
        Err(owned("images need chat mode and a vision overlay (--chat --vision)"))
    }
}

/// The prompt and the output must fit the context window.
pub fn check_room(prompt: usize, n_predict: usize, ctx: usize) -> (r: Result<(), String>)
    ensures
        if prompt + n_predict <= ctx {
            r is Ok
        } else {
            r matches Err(e) && e@ == "prompt ("@ + decimal(prompt as nat) + ") + n_predict ("@ + decimal(
                n_predict as nat,
            ) + ") exceeds --ctx "@ + decimal(ctx as nat)
        },
{
    if prompt as u128 + n_predict as u128 <= ctx as u128 {
        return Ok(());
    }
    let mut e: String = owned("prompt (");
    push_decimal(&mut e, prompt as u64);
    push_text(&mut e, ") + n_predict (");
    push_decimal(&mut e, n_predict as u64);
    push_text(&mut e, ") exceeds --ctx ");
    push_decimal(&mut e, ctx as u64);
    Err(e)
}

/// How many tokens are drafted per round: within 1..7, and none without an overlay.
pub fn drafts_for(overlay: bool, spec_k: usize) -> (k: usize)
    ensures
        k == if !overlay {
            0
        } else if spec_k < 1 {
            1
        } else if spec_k > 7 {
            7
        } else {
            spec_k as int
        },
{
    if !overlay {
        0
    } else if spec_k < 1 {
        1
    } else if spec_k > 7 {
        7
    } else {
        spec_k
    }
}

/// What becomes of the output behind a token.
#[derive(Clone, Copy, Debug, PartialEq, Eq, Structural)]
pub enum Step {
    /// The token ended the text.
    Ended,
    /// The output is as long as it was asked to be; its last token is to be shown.
    Full,
    /// The token is to be shown, and at most so many follow.
    More(usize),
}

/// The tokens of the output, in the order in which they came.
pub struct Output {
    ids: Vec<u32>,
    limit: usize,
    eos: u32,
}

/// The tokens, how many there may be, and the token that ends the text.
#[verifier::ext_equal]
pub struct OutputView {
    pub ids: Seq<u32>,
    pub limit: int,
    pub eos: u32,
}

impl View for Output {
    type V = OutputView;

    closed spec fn view(&self) -> OutputView {
        OutputView { ids: self.ids@, limit: self.limit as int, eos: self.eos }
    }
}

/// Drafts up to the one that ends the text, that one included.
pub open spec fn up_to(drafts: Seq<u32>, eos: u32) -> Seq<u32>
    decreases drafts.len(),
{
    if drafts.len() == 0 {
        Seq::empty()
    } else {
        let front = up_to(drafts.drop_last(), eos);
        if front.contains(eos) { front } else { front.push(drafts.last()) }
    }
}

impl Output {
    pub fn new(limit: usize, eos: u32) -> (o: Output)
        ensures
            o@ == (OutputView { ids: Seq::empty(), limit: limit as int, eos }),
    {
        Output { ids: Vec::new(), limit, eos }
    }

    pub fn ids(&self) -> (v: &Vec<u32>)
        ensures
            v@ == self@.ids,
    {
        &self.ids
    }

    /// Whether another token may follow.
    pub fn has_room(&self) -> (r: bool)
        ensures
            r == (self@.ids.len() < self@.limit),
    {
        self.ids.len() < self.limit
    }

    /// Take the next token.
    pub fn push(&mut self, next: u32) -> (s: Step)
        ensures
            final(self)@ == (OutputView { ids: old(self)@.ids.push(next), ..old(self)@ }),
            s == if next == old(self)@.eos {
                Step::Ended
            } else if old(self)@.ids.len() + 1 >= old(self)@.limit {
                Step::Full
            } else {
                Step::More((old(self)@.limit - old(self)@.ids.len() - 1) as usize)
            },
    {
        self.ids.push(next);
        if next == self.eos {
            Step::Ended
        } else if self.ids.len() >= self.limit {
            Step::Full
        } else {
            Step::More(self.limit - self.ids.len())
        }
    }

    /// Take the drafts that were accepted; true where one of them ends the text, and then nothing
    /// behind it is taken.
    pub fn push_drafts(&mut self, drafts: &[u32]) -> (done: bool)
        ensures
            final(self)@ == (OutputView { ids: old(self)@.ids + up_to(drafts@, old(self)@.eos), ..old(self)@ }),
            done == drafts@.contains(old(self)@.eos),
    {
        let n: usize = drafts.len();
        let mut i: usize = 0;
        let ghost base = self.ids@;
        let ghost eos = self.eos;
        assert(drafts@.take(0) =~= Seq::<u32>::empty());
        assert(base + up_to(drafts@.take(0), eos) =~= base);
        while i < n
            invariant
                n == drafts@.len(),
                i <= n,
                eos == self.eos,
                self.eos == old(self).eos,
                self.limit == old(self).limit,
                base == old(self).ids@,
                self.ids@ == base + up_to(drafts@.take(i as int), eos),
                forall|j: int| 0 <= j < i ==> drafts@[j] != eos,
                !up_to(drafts@.take(i as int), eos).contains(eos),
            decreases n - i,
        {
            let d: u32 = drafts[i];
            let ghost front = up_to(drafts@.take(i as int), eos);
            assert(drafts@.take(i + 1).drop_last() =~= drafts@.take(i as int));
            assert(drafts@.take(i + 1).last() == d);
            self.ids.push(d);
            assert(up_to(drafts@.take(i + 1), eos) == front.push(d));
            assert(self.ids@ =~= base + front.push(d));
            if d == self.eos {
                proof {
                    assert(front.push(d)[front.len() as int] == eos);
                    lemma_up_to_ended(drafts@, eos, i + 1, n as int);
                    assert(drafts@.take(n as int) =~= drafts@);
                    assert(drafts@[i as int] == eos);
                }
                return true;
            }
            proof {
                assert forall|j: int| 0 <= j < front.push(d).len() implies front.push(d)[j] != eos by {
                    if j < front.len() {
                        assert(front.contains(front[j]));
                    }
                }
            }
            i = i + 1;
        }
        assert(drafts@.take(n as int) =~= drafts@);
        false
    }
}

proof fn lemma_up_to_ended(d: Seq<u32>, eos: u32, k: int, n: int)
    requires
        0 <= k <= n <= d.len(),
        up_to(d.take(k), eos).contains(eos),
    ensures
        up_to(d.take(n), eos) == up_to(d.take(k), eos),
    decreases n - k,
{
    if k < n {
        lemma_up_to_ended(d, eos, k, n - 1);
        assert(d.take(n).drop_last() =~= d.take(n - 1));
    }
}

/// How much of the output was shown, in bytes.
pub struct Shown {
    pub printed: usize,
}

/// What is new in a text of which the first `printed` bytes were shown.
pub open spec fn fresh_part(text: Seq<char>, printed: int) -> Option<Seq<char>> {
    if byte_len(text) > printed {
        Some(text.skip(whole_chars(text, printed)))
    } else {
        None
    }
}

fn skipped(c: &[char], printed: usize) -> (r: Option<String>)
    ensures
        match fresh_part(c@, printed as int) {
            Some(t) => r matches Some(x) && x@ == t,
            None => r is None,
        },
{
    let total: u128 = bytes_of(c);
    if total <= printed as u128 {
        return None;
    }
    let (k, _at) = whole_chars_of(c, total, printed as u128);
    let v: Vec<char> = copy_range(c, k, c.len());
    assert(v@ =~= c@.skip(k as int));
    Some(from_chars(v.as_slice()))
}

impl Shown {
    pub fn new() -> (s: Shown)
        ensures
            s.printed == 0,
    {
        Shown { printed: 0 }
    }

    /// What is to be shown of the output, which decodes to `decoded` so far: a token may end within
    /// a character, and what stands for one that is not whole yet is held back.
    pub fn show(&mut self, decoded: &str) -> (r: Option<String>)
        ensures
            match fresh_part(stable_part(decoded@), old(self).printed as int) {
                Some(t) => (r matches Some(x) && x@ == t) && final(self).printed == byte_len(
                    stable_part(decoded@),
                ),
                None => r is None && final(self).printed == old(self).printed,
            },
    {
        let n: usize = decoded.as_bytes().len();
        let c: Vec<char> = to_chars(decoded);
        let k: usize = stable_len(c.as_slice());
        let v: Vec<char> = copy_range(c.as_slice(), 0, k);
        assert(v@ =~= c@.take(k as int));
        let r: Option<String> = skipped(v.as_slice(), self.printed);
        if r.is_some() {
            proof {
                law_byte_len(decoded@);
                lemma_byte_len_grows(c@, k as int, c@.len() as int);
                assert(c@.take(c@.len() as int) =~= c@);
            }
            self.printed = bytes_of(v.as_slice()) as usize;
        }
        r
    }

    /// What is left to show of the whole output.
    pub fn rest(&self, decoded: &str) -> (s: String)
        ensures
            s@ == match fresh_part(decoded@, self.printed as int) {
                Some(t) => t,
                None => Seq::empty(),
            },
    {
        let c: Vec<char> = to_chars(decoded);
        match skipped(c.as_slice(), self.printed) {
            Some(t) => t,
            None => {
                let e: Vec<char> = Vec::new();
                from_chars(e.as_slice())
            },
        }
    }
}

/// Where an output that was shown in part only grows, what is shown next continues it exactly.
pub proof fn law_shown_text_is_continued(shown: Seq<char>, more: Seq<char>)
    requires
        more.len() > 0,
    ensures
        fresh_part(shown + more, byte_len(shown)) == Some(more),
{
    let all = shown + more;
    assert(all.take(shown.len() as int) =~= shown);
    lemma_whole_prefix(all, shown.len() as int);
    lemma_byte_len_grows(all, shown.len() as int, all.len() as int);
    assert(all.take(all.len() as int) =~= all);
    assert(all.skip(shown.len() as int) =~= more);
}

/// The state of the generator behind `n` numbers.
pub open spec fn rng_after(rng: u64, n: int) -> u64
    decreases n,
{
    if n <= 0 {
        rng
    } else {
        ((rng_after(rng, n - 1) * 6364136223846793005 + 1442695040888963407) % 0x1_0000_0000_0000_0000) as u64
    }
}

/// The token that a state of the generator stands for.
pub open spec fn token_of(rng: u64) -> u32 {
    ((rng / 0x2_0000_0000) % 200000) as u32
}

/// A prompt of `n` tokens that mean nothing, and the generator's state behind it.
pub fn random_prompt(rng: u64, n: usize) -> (r: (Vec<u32>, u64))
    ensures
        r.0@ == Seq::new(n as nat, |i: int| token_of(rng_after(rng, i + 1))),
        r.1 == rng_after(rng, n as int),
{
    let mut v: Vec<u32> = Vec::new();
    let mut state: u64 = rng;
    let mut i: usize = 0;
    while i < n
        invariant
            i <= n,
            state == rng_after(rng, i as int),
            v@ == Seq::new(i as nat, |j: int| token_of(rng_after(rng, j + 1))),
        decreases n - i,
    {
        proof {
            let m = state * 6364136223846793005;
            vstd::arithmetic::div_mod::lemma_add_mod_noop(
                m,
                1442695040888963407,
                0x1_0000_0000_0000_0000,
            );
            assert(1442695040888963407int % 0x1_0000_0000_0000_0000 == 1442695040888963407);
        }
        state = state.wrapping_mul(6364136223846793005).wrapping_add(1442695040888963407);
        assert(state >> 33 == state / 0x2_0000_0000) by (bit_vector);
        v.push(((state >> 33) % 200000) as u32);
        i = i + 1;
        assert(v@ =~= Seq::new(i as nat, |j: int| token_of(rng_after(rng, j + 1))));
    }
    (v, state)
}

/// How many steps of `m` rows decode `tg` tokens.
pub fn decode_steps(tg: usize, m: usize) -> (n: usize)
    requires
        m > 0,
    ensures
        n == (tg + m - 1) / (m as int),
{
    let q: usize = tg / m;
    proof {
        assert((tg + m - 1) / (m as int) == tg / m + if tg % m > 0 { 1int } else { 0int }) by (nonlinear_arith)
            requires
                m > 0,
        ;
        assert(tg % m > 0 ==> tg / m < usize::MAX) by (nonlinear_arith)
            requires
                m > 0,
        ;
    }
    if tg % m > 0 { q + 1 } else { q }
}

/// The sum of the first `n` numbers.
pub open spec fn total(s: Seq<u64>, n: int) -> int
    decreases n,
{
    if n <= 0 { 0 } else { total(s, n - 1) + s[n - 1] }
}

/// How many numbers are summed side by side.
pub const LANES: usize = 8;

proof fn lemma_wrapped(a: int, b: u64, c: u64)
    ensures
        (a + b.wrapping_add(c)) % 0x1_0000_0000_0000_0000 == (a + b + c) % 0x1_0000_0000_0000_0000,
{
    let m = 0x1_0000_0000_0000_0000int;
    vstd::arithmetic::div_mod::lemma_add_mod_noop_right(a, b + c, m);
}

/// The sum of the numbers, without what exceeds 64 bits. Eight accumulators are independent of one
/// another, so that the loop is bound by the memory and not by the additions.
pub fn sum_u64(s: &[u64]) -> (t: u64)
    ensures
        t == total(s@, s@.len() as int) % 0x1_0000_0000_0000_0000,
{
    let n: usize = s.len();
    let mut acc: [u64; LANES] = [0, 0, 0, 0, 0, 0, 0, 0];
    let mut i: usize = 0;
    assert(total(acc@, 8) == 0) by {
        reveal_with_fuel(total, 9);
    }
    while n - i >= LANES
        invariant
            n == s@.len(),
            i <= n,
            total(acc@, 8) % 0x1_0000_0000_0000_0000 == total(s@, i as int) % 0x1_0000_0000_0000_0000,
        decreases n - i,
    {
        let mut k: usize = 0;
        while k < LANES
            invariant
                n == s@.len(),
                i + LANES <= n,
                k <= LANES,
                total(acc@, 8) % 0x1_0000_0000_0000_0000 == total(s@, i + k) % 0x1_0000_0000_0000_0000,
            decreases LANES - k,
        {
            let ghost before = acc@;
            let x: u64 = acc[k].wrapping_add(s[i + k]);
            acc[k] = x;
            proof {
                assert(acc@ =~= before.update(k as int, x));
                lemma_total_update(before, k as int, x, 8);
                let rest = total(before, 8) - before[k as int];
                lemma_wrapped(rest, before[k as int], s@[i + k]);
                vstd::arithmetic::div_mod::lemma_add_mod_noop_right(
                    s@[i + k] as int,
                    total(before, 8),
                    0x1_0000_0000_0000_0000,
                );
                vstd::arithmetic::div_mod::lemma_add_mod_noop_right(
                    s@[i + k] as int,
                    total(s@, i + k),
                    0x1_0000_0000_0000_0000,
                );
                assert(total(s@, i + k + 1) == total(s@, i + k) + s@[i + k]);
            }
            k = k + 1;
        }
        i = i + LANES;
    }
    let mut t: u64 = 0;
    let mut j: usize = i;
    while j < n
        invariant
            n == s@.len(),
            i <= j <= n,
            t == (total(s@, j as int) - total(s@, i as int)) % 0x1_0000_0000_0000_0000,
        decreases n - j,
    {
        proof {
            vstd::arithmetic::div_mod::lemma_add_mod_noop_right(
                s@[j as int] as int,
                total(s@, j as int) - total(s@, i as int),
                0x1_0000_0000_0000_0000,
            );
        }
        t = t.wrapping_add(s[j]);
        j = j + 1;
    }
    let mut k: usize = 0;
    let ghost base = total(s@, n as int) - total(s@, i as int);
    while k < LANES
        invariant
            k <= LANES,
            t == (base + total(acc@, k as int)) % 0x1_0000_0000_0000_0000,
        decreases LANES - k,
    {
        proof {
            vstd::arithmetic::div_mod::lemma_add_mod_noop_right(
                acc@[k as int] as int,
                base + total(acc@, k as int),
                0x1_0000_0000_0000_0000,
            );
        }
        t = t.wrapping_add(acc[k]);
        k = k + 1;
    }
    proof {
        vstd::arithmetic::div_mod::lemma_add_mod_noop_right(base, total(acc@, 8), 0x1_0000_0000_0000_0000);
        vstd::arithmetic::div_mod::lemma_add_mod_noop_right(
            base,
            total(s@, i as int),
            0x1_0000_0000_0000_0000,
        );
    }
    t
}

proof fn lemma_total_update(a: Seq<u64>, k: int, x: u64, n: int)
    requires
        0 <= k < a.len(),
        0 <= n <= a.len(),
    ensures
        total(a.update(k, x), n) == total(a, n) + if k < n { x - a[k] } else { 0 },
    decreases n,
{
    if n > 0 {
        lemma_total_update(a, k, x, n - 1);
    }
}

/// The length of the block that a file of the loading benchmark repeats.
pub const BLOCK: usize = 0x80_0000;

/// Byte `i` of the block of a node's file.
pub open spec fn block_byte(i: int, node: int) -> int {
    (i * 7 + node * 13) % 251
}

/// The block that a node's file repeats.
pub fn file_block(node: usize) -> (v: Vec<u8>)
    requires
        13 * node + 7 * BLOCK <= usize::MAX,
    ensures
        v@.len() == BLOCK,
        forall|i: int| 0 <= i < BLOCK ==> #[trigger] v@[i] == block_byte(i, node as int),
{
    let mut v: Vec<u8> = Vec::new();
    let mut i: usize = 0;
    while i < BLOCK
        invariant
            i <= BLOCK,
            13 * node + 7 * BLOCK <= usize::MAX,
            v@.len() == i,
            forall|j: int| 0 <= j < i ==> #[trigger] v@[j] == block_byte(j, node as int),
        decreases BLOCK - i,
    {
        v.push(((i * 7 + node * 13) % 251) as u8);
        i = i + 1;
    }
    v
}

/// The byte that a node's file holds at an offset.
pub fn wanted_byte(offset: usize, node: usize) -> (b: u8)
    requires
        13 * node + 7 * BLOCK <= usize::MAX,
    ensures
        b == block_byte((offset % BLOCK) as int, node as int),
{
    (((offset % BLOCK) * 7 + node * 13) % 251) as u8
}

/// How many whole pieces of 2 MiB there are in so many bytes, in bytes.
pub fn whole_pages(bytes: usize) -> (n: usize)
    ensures
        n <= bytes < n + 0x20_0000,
        n % 0x20_0000 == 0,
{
    (bytes / 0x20_0000) * 0x20_0000
}

/// How often the drafts of a probe were right: the first, and each further one where those before it
/// were.
#[derive(Clone, Copy, Debug, PartialEq, Eq, Structural)]
pub struct Hits {
    pub tried: usize,
    pub first: usize,
    pub second: usize,
    pub third: usize,
}

impl Hits {
    /// No count exceeds the one it depends on.
    pub open spec fn nested(self) -> bool {
        self.third <= self.second <= self.first <= self.tried
    }

    pub fn new() -> (h: Hits)
        ensures
            h == (Hits { tried: 0, first: 0, second: 0, third: 0 }),
            h.nested(),
    {
        Hits { tried: 0, first: 0, second: 0, third: 0 }
    }

    /// Count a probe: whether the first draft was right; where it was, whether the second was;
    /// where that was too, whether the third was.
    pub fn count(&mut self, first: bool, second: bool, third: bool)
        requires
            old(self).nested(),
            old(self).tried < usize::MAX,
        ensures
            final(self).nested(),
            final(self).tried == old(self).tried + 1,
            final(self).first == old(self).first + if first { 1int } else { 0int },
            final(self).second == old(self).second + if first && second { 1int } else { 0int },
            final(self).third == old(self).third + if first && second && third { 1int } else { 0int },
    {
        self.tried = self.tried + 1;
        if first {
            self.first = self.first + 1;
            if second {
                self.second = self.second + 1;
                if third {
                    self.third = self.third + 1;
                }
            }
        }
    }
}

/// A question stands between the marks of a user's turn, its images before it, and the answer is
/// opened behind it: with an empty think block, or with one that is left open.
pub proof fn law_question_in_the_template(text: Seq<char>, images: int, no_think: bool)
    requires
        images >= 0,
    ensures
        no_think ==> chat_text(text, 0, no_think) == "<|im_start|>user\n"@ + trim_end(text)
            + "<|im_end|>\n<|im_start|>assistant\n"@ + "<think>\n\n</think>\n\n"@,
        !no_think ==> chat_text(text, 0, no_think) == "<|im_start|>user\n"@ + trim_end(text)
            + "<|im_end|>\n<|im_start|>assistant\n"@ + "<think>\n"@,
        chat_text(text, images + 1, no_think) == "<|im_start|>user\n"@
            + "<|vision_start|><|image_pad|><|vision_end|>"@ + chat_text(text, images, no_think).skip(
            "<|im_start|>user\n"@.len() as int,
        ),
{
    let head = "<|im_start|>user\n"@;
    let one = IMAGE_PLACEHOLDER@;
    let end = "<|im_end|>\n<|im_start|>assistant\n"@ + if no_think {
        "<think>\n\n</think>\n\n"@
    } else {
        "<think>\n"@
    };
    assert(times(one, 0) =~= Seq::<char>::empty());
    assert(chat_text(text, 0, no_think) =~= head + trim_end(text) + end);
    lemma_times(one, images);
    let rest = times(one, images) + trim_end(text) + end;
    assert(chat_text(text, images, no_think) =~= head + rest);
    assert(chat_text(text, images, no_think).skip(head.len() as int) =~= rest);
    assert(chat_text(text, images + 1, no_think) =~= head + one + rest);
}

proof fn lemma_times(s: Seq<char>, n: int)
    requires
        n >= 0,
    ensures
        times(s, n + 1) == s + times(s, n),
    decreases n,
{
    if n > 0 {
        lemma_times(s, n - 1);
        assert(times(s, n + 1) =~= s + times(s, n));
    } else {
        assert(times(s, 0) =~= Seq::<char>::empty());
        assert(times(s, 1) =~= s + times(s, 0));
    }
}

/// Drafts are taken up to the first that ends the text, that one included; all of them where none
/// does.
pub proof fn law_drafts_are_taken_up_to_the_end(drafts: Seq<u32>, eos: u32, k: int)
    requires
        0 <= k <= drafts.len(),
        forall|j: int| 0 <= j < k ==> drafts[j] != eos,
    ensures
        k == drafts.len() ==> up_to(drafts, eos) == drafts,
        k < drafts.len() && drafts[k] == eos ==> up_to(drafts, eos) == drafts.take(k + 1),
    decreases drafts.len(),
{
    if drafts.len() > 0 {
        let front = drafts.drop_last();
        let n = drafts.len() as int;
        if k == n {
            law_drafts_are_taken_up_to_the_end(front, eos, n - 1);
            assert(!front.contains(eos));
            assert(front.push(drafts.last()) =~= drafts);
        } else if drafts[k] == eos {
            law_drafts_are_taken_up_to_the_end(front, eos, k);
            if k == n - 1 {
                assert(!front.contains(eos));
                assert(front.push(drafts.last()) =~= drafts.take(k + 1));
            } else {
                assert(front.take(k + 1) =~= drafts.take(k + 1));
                assert(front.take(k + 1)[k] == eos);
            }
        }
    } else {
        assert(up_to(drafts, eos) =~= drafts);
    }
}

/// The generator goes on from any of its states as from the first, by one step of its recurrence.
pub proof fn law_generator_goes_on(rng: u64, a: int, b: int)
    requires
        a >= 0,
        b >= 0,
    ensures
        rng_after(rng, 0) == rng,
        rng_after(rng, 1) == (rng * 6364136223846793005 + 1442695040888963407) % 0x1_0000_0000_0000_0000,
        rng_after(rng_after(rng, a), b) == rng_after(rng, a + b),
        token_of(rng) < 200000,
        token_of(rng) == rng / 0x2_0000_0000 % 200000,
    decreases b,
{
    reveal_with_fuel(rng_after, 2);
    if b > 0 {
        law_generator_goes_on(rng, a, b - 1);
    }
}

/// The sum is that of all the numbers, whichever way they are split.
pub proof fn law_total_is_of_all_numbers(s: Seq<u64>, t: Seq<u64>)
    ensures
        total(s + t, (s + t).len() as int) == total(s, s.len() as int) + total(t, t.len() as int),
        s.len() == 1 ==> total(s, 1) == s[0],
        total(Seq::empty(), 0) == 0,
    decreases t.len(),
{
    reveal_with_fuel(total, 2);
    let all = s + t;
    if t.len() == 0 {
        assert(all =~= s);
    } else {
        let rest = t.drop_last();
        law_total_is_of_all_numbers(s, rest);
        lemma_total_prefix(all, s + rest, all.len() - 1);
        lemma_total_prefix(t, rest, t.len() - 1);
        assert(all.last() == t.last());
    }
}

proof fn lemma_total_prefix(a: Seq<u64>, b: Seq<u64>, n: int)
    requires
        n <= a.len(),
        n <= b.len(),
        forall|i: int| 0 <= i < n ==> a[i] == b[i],
    ensures
        total(a, n) == total(b, n),
    decreases n,
{
    if n > 0 {
        lemma_total_prefix(a, b, n - 1);
    }
}

/// The bytes of a file go up by seven, and those of the next node's are thirteen more, modulo 251.
pub proof fn law_bytes_of_a_file(i: int, node: int)
    requires
        i >= 0,
        node >= 0,
    ensures
        block_byte(0, 0) == 0,
        block_byte(i + 1, node) == (block_byte(i, node) + 7) % 251,
        block_byte(i, node + 1) == (block_byte(i, node) + 13) % 251,
{
}

} // verus!
