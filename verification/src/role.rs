//! Role tags and the chunking of a token sequence along role boundaries.
use crate::text::str_eq;
use vstd::prelude::*;

verus! {

/// What the tokens of a chunk are: which side of the conversation wrote them.
#[derive(Clone, Copy, Debug, PartialEq, Eq, Hash, Structural)]
pub enum Role {
    /// System prompt, including the server-injected instructions and tool definitions.
    System,
    /// A user turn.
    User,
    /// The model's `<think>` block (in the prompt as `reasoning_content`, or generated).
    Reasoning,
    /// A tool result (`<tool_response>` block).
    Tool,
    /// The model's answer, including tool calls it emitted.
    Assistant,
}

impl Role {
    /// Every role, in the order in which policies are listed.
    pub const ALL: [Role; 5] = [
        Role::System,
        Role::User,
        Role::Reasoning,
        Role::Tool,
        Role::Assistant,
    ];

    /// The name of a role in configuration files and stored headers.
    pub open spec fn text(self) -> Seq<char> {
        match self {
            Role::System => "system"@,
            Role::User => "user"@,
            Role::Reasoning => "reasoning"@,
            Role::Tool => "tool"@,
            Role::Assistant => "assistant"@,
        }
    }

    pub fn name(self) -> (s: &'static str)
        ensures
            s@ == self.text(),
    {
        match self {
            Role::System => "system",
            Role::User => "user",
            Role::Reasoning => "reasoning",
            Role::Tool => "tool",
            Role::Assistant => "assistant",
        }
    }

    /// The role of that name; none for any other text.
    pub fn parse(s: &str) -> (r: Option<Role>)
        ensures
            match r {
                Some(role) => s@ == role.text(),
                None => forall|role: Role| s@ != #[trigger] role.text(),
            },
    {
        if str_eq(s, "system") {
            Some(Role::System)
        } else if str_eq(s, "user") {
            Some(Role::User)
        } else if str_eq(s, "reasoning") {
            Some(Role::Reasoning)
        } else if str_eq(s, "tool") {
            Some(Role::Tool)
        } else if str_eq(s, "assistant") {
            Some(Role::Assistant)
        } else {
            None
        }
    }
}

/// Different roles have different names, so a name determines its role.
pub proof fn law_role_names_distinct(a: Role, b: Role)
    requires
        a.text() == b.text(),
    ensures
        a == b,
{
    reveal_strlit("system");
    reveal_strlit("user");
    reveal_strlit("reasoning");
    reveal_strlit("tool");
    reveal_strlit("assistant");
    if a != b {
        let x = a.text();
        let y = b.text();
        assert(x.len() == y.len());
        assert(x[0] == y[0]);
    }
}

/// A run of token positions `[start, end)` with one role.
#[derive(Clone, Copy, Debug, PartialEq, Eq, Structural)]
pub struct Span {
    pub start: usize,
    pub end: usize,
    pub role: Role,
}

impl Span {
    pub fn new(start: usize, end: usize, role: Role) -> (s: Span)
        ensures
            s == (Span { start, end, role }),
    {
        Span { start, end, role }
    }

    pub fn len(&self) -> (n: usize)
        requires
            self.start <= self.end,
        ensures
            n == self.end - self.start,
    {
        self.end - self.start
    }

    pub fn is_empty(&self) -> (r: bool)
        ensures
            r == (self.end <= self.start),
    {
        self.end <= self.start
    }

    /// Whether position `p` lies in the span.
    pub open spec fn holds(self, p: int) -> bool {
        self.start <= p < self.end
    }
}

/// Whether some span of the list holds position `p`.
pub open spec fn covers(spans: Seq<Span>, p: int) -> bool {
    exists|i: int| 0 <= i < spans.len() && (#[trigger] spans[i]).holds(p)
}

pub open spec fn span_of(start: int, end: int, role: Role) -> Span {
    Span { start: start as usize, end: end as usize, role }
}

/// `[start, end)` cut into pieces of `len` positions, the last one shorter.
pub open spec fn cut(start: int, end: int, role: Role, len: int) -> Seq<Span>
    decreases end - start,
{
    if start >= end || len < 1 {
        Seq::empty()
    } else if end - start <= len {
        seq![span_of(start, end, role)]
    } else {
        seq![span_of(start, start + len, role)] + cut(start + len, end, role, len)
    }
}

/// A chunk length of 0 behaves as 1.
pub open spec fn at_least_one(n: int) -> int {
    if n < 1 { 1 } else { n }
}

/// The chunks of `[from, ..)` of the spans, span by span.
pub open spec fn chunks(spans: Seq<Span>, from: int, len: int) -> Seq<Span>
    decreases spans.len(),
{
    if spans.len() == 0 {
        Seq::empty()
    } else {
        let s = spans.last();
        let a = if s.start >= from { s.start as int } else { from };
        chunks(spans.drop_last(), from, len) + cut(a, s.end as int, s.role, at_least_one(len))
    }
}

/// Cut `[from, ..)` of the spans into chunks: a chunk never crosses a role boundary and holds at
/// most `chunk_len` tokens.
pub fn chunk_spans(spans: &[Span], from: usize, chunk_len: usize) -> (out: Vec<Span>)
    ensures
        out@ == chunks(spans@, from as int, chunk_len as int),
{
    let len: usize = if chunk_len < 1 { 1 } else { chunk_len };
    let mut out: Vec<Span> = Vec::new();
    let n: usize = spans.len();
    let mut i: usize = 0;
    while i < n
        invariant
            i <= n,
            n == spans@.len(),
            len == at_least_one(chunk_len as int),
            out@ == chunks(spans@.subrange(0, i as int), from as int, chunk_len as int),
        decreases n - i,
    {
        let s = spans[i];
        let a: usize = if s.start >= from { s.start } else { from };
        let ghost before = out@;
        let mut p: usize = a;
        assert(before + cut(p as int, s.end as int, s.role, len as int) =~= out@ + cut(
            p as int,
            s.end as int,
            s.role,
            len as int,
        ));
        while p < s.end
            invariant
                len >= 1,
                before + cut(a as int, s.end as int, s.role, len as int) == out@ + cut(
                    p as int,
                    s.end as int,
                    s.role,
                    len as int,
                ),
            decreases s.end - p,
        {
            let e: usize = if s.end - p <= len { s.end } else { p + len };
            let ghost rest = cut(e as int, s.end as int, s.role, len as int);
            assert(cut(p as int, s.end as int, s.role, len as int) =~= seq![
                span_of(p as int, e as int, s.role),
            ] + rest);
            let ghost old_out = out@;
            out.push(Span::new(p, e, s.role));
            assert(out@ + rest =~= old_out + (seq![span_of(p as int, e as int, s.role)] + rest));
            p = e;
        }
        assert(out@ =~= before + cut(a as int, s.end as int, s.role, len as int));
        assert(spans@.subrange(0, i + 1).drop_last() =~= spans@.subrange(0, i as int));
        i = i + 1;
    }
    assert(spans@.subrange(0, n as int) =~= spans@);
    out
}

proof fn lemma_cut(start: int, end: int, role: Role, len: int)
    requires
        0 <= start,
        end <= usize::MAX,
        len >= 1,
    ensures
        ({
            let c = cut(start, end, role, len);
            &&& forall|i: int|
                0 <= i < c.len() ==> start <= (#[trigger] c[i]).start < c[i].end <= end && c[i].role
                    == role && c[i].end - c[i].start <= len
            &&& forall|i: int, j: int|
                0 <= i < j < c.len() ==> (#[trigger] c[i]).end <= (#[trigger] c[j]).start
            &&& forall|p: int| start <= p < end ==> #[trigger] covers(c, p)
        }),
    decreases end - start,
{
    let c = cut(start, end, role, len);
    if start >= end {
    } else if end - start <= len {
        assert forall|p: int| start <= p < end implies #[trigger] covers(c, p) by {
            assert(c[0].holds(p));
        }
    } else {
        lemma_cut(start + len, end, role, len);
        let rest = cut(start + len, end, role, len);
        assert forall|i: int| 0 <= i < c.len() implies start <= (#[trigger] c[i]).start < c[i].end
            <= end && c[i].role == role && c[i].end - c[i].start <= len by {
            if i > 0 {
                assert(c[i] == rest[i - 1]);
            }
        }
        assert forall|i: int, j: int| 0 <= i < j < c.len() implies (#[trigger] c[i]).end <= (
        #[trigger] c[j]).start by {
            assert(c[j] == rest[j - 1]);
            if i > 0 {
                assert(c[i] == rest[i - 1]);
            }
        }
        assert forall|p: int| start <= p < end implies #[trigger] covers(c, p) by {
            if p < start + len {
                assert(c[0].holds(p));
            } else {
                assert(covers(rest, p));
                let k = choose|k: int| 0 <= k < rest.len() && (#[trigger] rest[k]).holds(p);
                assert(c[k + 1] == rest[k]);
                assert(c[k + 1].holds(p));
            }
        }
    }
}

/// Every chunk is a non-empty run inside one span with that span's role, starts at or after
/// `from`, and holds at most `chunk_len` positions (at most one when `chunk_len` is 0).
pub proof fn law_chunks_respect_boundaries(spans: Seq<Span>, from: int, chunk_len: int)
    requires
        from >= 0,
    ensures
        forall|i: int|
            0 <= i < chunks(spans, from, chunk_len).len() ==> {
                let c = #[trigger] chunks(spans, from, chunk_len)[i];
                &&& from <= c.start < c.end
                &&& c.end - c.start <= at_least_one(chunk_len)
                &&& exists|k: int|
                    0 <= k < spans.len() && (#[trigger] spans[k]).start <= c.start && c.end
                        <= spans[k].end && c.role == spans[k].role
            },
    decreases spans.len(),
{
    if spans.len() > 0 {
        let s = spans.last();
        let init = spans.drop_last();
        let a = if s.start >= from { s.start as int } else { from };
        let head = chunks(init, from, chunk_len);
        let tail = cut(a, s.end as int, s.role, at_least_one(chunk_len));
        law_chunks_respect_boundaries(init, from, chunk_len);
        lemma_cut(a, s.end as int, s.role, at_least_one(chunk_len));
        let all = chunks(spans, from, chunk_len);
        assert forall|i: int| 0 <= i < all.len() implies {
            let c = #[trigger] all[i];
            &&& from <= c.start < c.end
            &&& c.end - c.start <= at_least_one(chunk_len)
            &&& exists|k: int|
                0 <= k < spans.len() && (#[trigger] spans[k]).start <= c.start && c.end
                    <= spans[k].end && c.role == spans[k].role
        } by {
            if i < head.len() {
                let c = head[i];
                assert(all[i] == c);
                let k = choose|k: int|
                    0 <= k < init.len() && (#[trigger] init[k]).start <= c.start && c.end
                        <= init[k].end && c.role == init[k].role;
                assert(spans[k] == init[k]);
            } else {
                assert(all[i] == tail[i - head.len()]);
                assert(spans[spans.len() - 1] == s);
            }
        }
    }
}

/// The chunks cover exactly the positions from `from` on that some span holds.
pub proof fn law_chunks_cover(spans: Seq<Span>, from: int, chunk_len: int, p: int)
    requires
        from >= 0,
    ensures
        covers(chunks(spans, from, chunk_len), p) <==> (p >= from && covers(spans, p)),
    decreases spans.len(),
{
    let all = chunks(spans, from, chunk_len);
    law_chunks_respect_boundaries(spans, from, chunk_len);
    if covers(all, p) {
        let i = choose|i: int| 0 <= i < all.len() && (#[trigger] all[i]).holds(p);
        let c = all[i];
        let k = choose|k: int|
            0 <= k < spans.len() && (#[trigger] spans[k]).start <= c.start && c.end <= spans[k].end
                && c.role == spans[k].role;
        assert(spans[k].holds(p));
    }
    if p >= from && covers(spans, p) {
        let k = choose|k: int| 0 <= k < spans.len() && (#[trigger] spans[k]).holds(p);
        let s = spans.last();
        let init = spans.drop_last();
        let a = if s.start >= from { s.start as int } else { from };
        let head = chunks(init, from, chunk_len);
        let tail = cut(a, s.end as int, s.role, at_least_one(chunk_len));
        if k == spans.len() - 1 {
            lemma_cut(a, s.end as int, s.role, at_least_one(chunk_len));
            assert(covers(tail, p));
            let i = choose|i: int| 0 <= i < tail.len() && (#[trigger] tail[i]).holds(p);
            assert(all[head.len() + i] == tail[i]);
        } else {
            assert(init[k].holds(p));
            law_chunks_cover(init, from, chunk_len, p);
            let i = choose|i: int| 0 <= i < head.len() && (#[trigger] head[i]).holds(p);
            assert(all[i] == head[i]);
        }
    }
}

/// Spans that are sorted and do not overlap.
pub open spec fn sorted_spans(spans: Seq<Span>) -> bool {
    forall|i: int, j: int| 0 <= i < j < spans.len() ==> (#[trigger] spans[i]).end <= (
    #[trigger] spans[j]).start
}

/// Chunks of sorted spans are sorted and do not overlap.
pub proof fn law_chunks_sorted(spans: Seq<Span>, from: int, chunk_len: int)
    requires
        from >= 0,
        sorted_spans(spans),
    ensures
        sorted_spans(chunks(spans, from, chunk_len)),
    decreases spans.len(),
{
    if spans.len() > 0 {
        let s = spans.last();
        let init = spans.drop_last();
        let a = if s.start >= from { s.start as int } else { from };
        let head = chunks(init, from, chunk_len);
        let tail = cut(a, s.end as int, s.role, at_least_one(chunk_len));
        let all = chunks(spans, from, chunk_len);
        law_chunks_sorted(init, from, chunk_len);
        law_chunks_respect_boundaries(init, from, chunk_len);
        lemma_cut(a, s.end as int, s.role, at_least_one(chunk_len));
        assert forall|i: int, j: int| 0 <= i < j < all.len() implies (#[trigger] all[i]).end <= (
        #[trigger] all[j]).start by {
            if j < head.len() {
                assert(all[i] == head[i] && all[j] == head[j]);
            } else if i >= head.len() {
                assert(all[i] == tail[i - head.len()] && all[j] == tail[j - head.len()]);
            } else {
                assert(all[i] == head[i] && all[j] == tail[j - head.len()]);
                let c = head[i];
                let k = choose|k: int|
                    0 <= k < init.len() && (#[trigger] init[k]).start <= c.start && c.end
                        <= init[k].end && c.role == init[k].role;
                assert(spans[k] == init[k] && spans[spans.len() - 1] == s);
            }
        }
    }
}

/// The names of the roles.
pub proof fn law_role_names()
    ensures
        Role::System.text() == "system"@,
        Role::User.text() == "user"@,
        Role::Reasoning.text() == "reasoning"@,
        Role::Tool.text() == "tool"@,
        Role::Assistant.text() == "assistant"@,
{
}

/// A chunk is full unless it ends where its span does.
pub proof fn law_chunks_are_full(spans: Seq<Span>, from: int, chunk_len: int)
    requires
        from >= 0,
    ensures
        forall|i: int|
            0 <= i < chunks(spans, from, chunk_len).len() ==> {
                let c = #[trigger] chunks(spans, from, chunk_len)[i];
                exists|k: int|
                    0 <= k < spans.len() && c.role == spans[k].role && c.end <= (#[trigger] spans[k]).end && (
                    c.end == spans[k].end || c.end - c.start == if chunk_len < 1 { 1 } else { chunk_len })
            },
    decreases spans.len(),
{
    if spans.len() > 0 {
        let s = spans.last();
        let front = spans.drop_last();
        let a = if s.start >= from { s.start as int } else { from };
        let len = at_least_one(chunk_len);
        let first = chunks(front, from, chunk_len);
        law_chunks_are_full(front, from, chunk_len);
        lemma_cut_is_full(a, s.end as int, s.role, len);
        let all = chunks(spans, from, chunk_len);
        assert forall|i: int| 0 <= i < all.len() implies ({
            let c = #[trigger] all[i];
            exists|k: int|
                0 <= k < spans.len() && c.role == spans[k].role && c.end <= (#[trigger] spans[k]).end && (c.end
                    == spans[k].end || c.end - c.start == if chunk_len < 1 { 1 } else { chunk_len })
        }) by {
            if i < first.len() {
                let c = first[i];
                assert(all[i] == c);
                let k = choose|k: int|
                    0 <= k < front.len() && c.role == front[k].role && c.end <= (#[trigger] front[k]).end && (
                    c.end == front[k].end || c.end - c.start == if chunk_len < 1 { 1 } else { chunk_len });
                assert(spans[k] == front[k]);
            } else {
                let c = cut(a, s.end as int, s.role, len)[i - first.len()];
                assert(all[i] == c);
                assert(spans[spans.len() - 1] == s);
            }
        }
    }
}

proof fn lemma_cut_is_full(start: int, end: int, role: Role, len: int)
    requires
        0 <= start,
        end <= usize::MAX,
        len >= 1,
    ensures
        forall|i: int|
            0 <= i < cut(start, end, role, len).len() ==> {
                let c = #[trigger] cut(start, end, role, len)[i];
                &&& c.role == role
                &&& c.end <= end
                &&& c.end == end || c.end - c.start == len
            },
    decreases end - start,
{
    if start < end && end - start > len {
        lemma_cut_is_full(start + len, end, role, len);
        let rest = cut(start + len, end, role, len);
        let all = cut(start, end, role, len);
        assert forall|i: int| 0 <= i < all.len() implies ({
            let c = #[trigger] all[i];
            &&& c.role == role
            &&& c.end <= end
            &&& c.end == end || c.end - c.start == len
        }) by {
            if i > 0 {
                assert(all[i] == rest[i - 1]);
            }
        }
    }
}

} // verus!
