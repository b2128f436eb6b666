//! The answer to a chat-completions request while it is generated: what of each choice is sent or
//! kept, and how the response ends.
use crate::api::error_text;
use crate::api::error_view;
use crate::engine::{Event, Finish, Reason};
use crate::http::{hexadecimal, push_hexadecimal};
use crate::json::{array_of, no_members, number, object, object_of, push_entry, text_value, to_compact};
use crate::json::{compact, entry, items_view, lemma_array_view, members_view, number_view};
use crate::json::{law_no_member_is_made_up, law_number_is_read_back, lemma_found};
use crate::json::{Json, JsonView, MemberView};
use crate::text::{concat, owned, push_decimal, push_text, texts};
use crate::text::decimal;
use crate::tools::{last_text, outs_view, run, tools_view, OutView, StreamView, ToolView};
use crate::tools::{Out, ToolSpec, ToolStream};
use vstd::prelude::*;

verus! {

/// The hexadecimal text of a number with at least four digits.
pub open spec fn four_digits(n: nat) -> Seq<char> {
    let h = hexadecimal(n);
    if n < 0x10 {
        "000"@ + h
    } else if n < 0x100 {
        "00"@ + h
    } else if n < 0x1000 {
        "0"@ + h
    } else {
        h
    }
}

/// The part of a request's id that tells it from others: when the server started, and a count.
pub open spec fn id_tail(started: u64, counter: u64) -> Seq<char> {
    hexadecimal(started as nat) + four_digits(counter as nat)
}

/// The distinctive part of a request's id.
pub fn request_tail(started: u64, counter: u64) -> (s: String)
    ensures
        s@ == id_tail(started, counter),
{
    let mut s: String = String::new();
    push_hexadecimal(&mut s, started);
    if counter < 0x10 {
        push_text(&mut s, "000");
    } else if counter < 0x100 {
        push_text(&mut s, "00");
    } else if counter < 0x1000 {
        push_text(&mut s, "0");
    }
    push_hexadecimal(&mut s, counter);
    assert(s@ =~= id_tail(started, counter));
    s
}

// ---- chunks ---------------------------------------------------------------------------------

/// What every chunk of a stream says about its request.
#[verifier::ext_equal]
pub struct Head {
    pub tail: Seq<char>,
    pub created: u64,
    pub model: Seq<char>,
}

impl Head {
    pub open spec fn id(self) -> Seq<char> {
        "chatcmpl-"@ + self.tail
    }
}

pub open spec fn opt_json(s: Option<Seq<char>>) -> JsonView {
    match s {
        Some(s) => JsonView::Text(s),
        None => JsonView::Null,
    }
}

/// One step of choice `index`.
pub open spec fn chunk_view(h: Head, index: int, delta: JsonView, reason: Option<Seq<char>>) -> JsonView {
    JsonView::Object(
        seq![
            entry("id"@, JsonView::Text(h.id())),
            entry("object"@, JsonView::Text("chat.completion.chunk"@)),
            entry("created"@, number_view(h.created as nat)),
            entry("model"@, JsonView::Text(h.model)),
            entry(
                "choices"@,
                JsonView::Array(
                    seq![
                        JsonView::Object(
                            seq![
                                entry("index"@, number_view(index as nat)),
                                entry("delta"@, delta),
                                entry("logprobs"@, JsonView::Null),
                                entry("finish_reason"@, opt_json(reason)),
                            ],
                        ),
                    ],
                ),
            ),
        ],
    )
}

/// A server-sent event.
pub open spec fn event_text(v: JsonView) -> Seq<char> {
    "data: "@ + compact(v) + "\n\n"@
}

pub open spec fn chunk_text(h: Head, index: int, delta: JsonView, reason: Option<Seq<char>>) -> Seq<char> {
    event_text(chunk_view(h, index, delta, reason))
}

/// The end of an event stream.
pub const DONE: &'static str = "data: [DONE]\n\n";

/// A delta with one text in it.
pub open spec fn text_delta(key: Seq<char>, t: Seq<char>) -> JsonView {
    JsonView::Object(seq![entry(key, JsonView::Text(t))])
}

/// The delta that a choice begins with.
pub open spec fn role_delta() -> JsonView {
    JsonView::Object(
        seq![
            entry("role"@, JsonView::Text("assistant"@)),
            entry("content"@, JsonView::Text(""@)),
        ],
    )
}

/// A tool call of an answer: the function and the text of its arguments.
#[verifier::ext_equal]
pub struct CallText {
    pub name: Seq<char>,
    pub arguments: Seq<char>,
}

/// The members of call `k` of choice `index`.
pub open spec fn call_members(tail: Seq<char>, index: int, k: int, c: CallText) -> Seq<MemberView> {
    seq![
        entry(
            "id"@,
            JsonView::Text(
                "call_"@ + tail + "_"@ + decimal(index as nat) + "_"@ + decimal(k as nat),
            ),
        ),
        entry("type"@, JsonView::Text("function"@)),
        entry(
            "function"@,
            JsonView::Object(
                seq![
                    entry("name"@, JsonView::Text(c.name)),
                    entry("arguments"@, JsonView::Text(c.arguments)),
                ],
            ),
        ),
    ]
}

/// The delta that carries call `k`.
pub open spec fn call_delta(tail: Seq<char>, index: int, k: int, c: CallText) -> JsonView {
    JsonView::Object(
        seq![
            entry(
                "tool_calls"@,
                JsonView::Array(
                    seq![
                        JsonView::Object(
                            call_members(tail, index, k, c).push(entry("index"@, number_view(k as nat))),
                        ),
                    ],
                ),
            ),
        ],
    )
}

// ---- one choice -----------------------------------------------------------------------------

/// How a choice ended.
#[derive(Clone, Copy, Debug, PartialEq, Eq, Structural)]
pub struct Ended {
    pub reason: Reason,
    pub completion_tokens: usize,
    pub reasoning_tokens: usize,
}

#[verifier::ext_equal]
pub struct ChoiceView {
    pub parser: StreamView,
    pub tools: Seq<ToolView>,
    pub content: Seq<char>,
    pub reasoning: Seq<char>,
    pub calls: Seq<CallText>,
    pub finish: Option<Ended>,
}

/// A choice and the chunks that a step of it sends.
#[verifier::ext_equal]
pub struct Stepped {
    pub choice: ChoiceView,
    pub chunks: Seq<Seq<char>>,
}

/// The first `n` pieces of the content stream, forwarded: text as a delta (or kept), a tool call
/// as a delta with the complete arguments (and kept).
pub open spec fn forwarded(
    h: Head,
    index: int,
    stream: bool,
    c: ChoiceView,
    outs: Seq<OutView>,
    n: int,
) -> Stepped
    decreases n,
{
    if n <= 0 {
        Stepped { choice: c, chunks: Seq::empty() }
    } else {
        let s = forwarded(h, index, stream, c, outs, n - 1);
        match outs[n - 1] {
            OutView::Text(t) => if stream {
                Stepped {
                    chunks: s.chunks.push(chunk_text(h, index, text_delta("content"@, t), None)),
                    ..s
                }
            } else {
                Stepped { choice: ChoiceView { content: s.choice.content + t, ..s.choice }, ..s }
            },
            OutView::Call(call) => {
                let x = CallText { name: call.name, arguments: compact(JsonView::Object(call.arguments)) };
                let k = s.choice.calls.len() as int;
                Stepped {
                    choice: ChoiceView { calls: s.choice.calls.push(x), ..s.choice },
                    chunks: if stream {
                        s.chunks.push(chunk_text(h, index, call_delta(h.tail, index, k, x), None))
                    } else {
                        s.chunks
                    },
                }
            },
        }
    }
}

/// Why a choice ended, as the API says it.
pub open spec fn finish_text(calls: int, reason: Reason) -> Seq<char> {
    if calls > 0 {
        "tool_calls"@
    } else if reason == Reason::Length {
        "length"@
    } else {
        "stop"@
    }
}

/// Why a choice ended, as the API says it.
pub fn choice_finish(calls: usize, reason: Reason) -> (s: &'static str)
    ensures
        s@ == finish_text(calls as int, reason),
{
    if calls > 0 {
        "tool_calls"
    } else if reason == Reason::Length {
        "length"
    } else {
        "stop"
    }
}

/// More content of a choice.
pub open spec fn with_content(h: Head, index: int, stream: bool, c: ChoiceView, t: Seq<char>) -> Stepped {
    let r = run(StreamView { buf: c.parser.buf + t, ..c.parser }, c.tools, Seq::empty());
    forwarded(h, index, stream, ChoiceView { parser: r.state, ..c }, r.outs, r.outs.len() as int)
}

/// The pieces that are left when a content stream ends.
pub open spec fn last_outs(p: StreamView) -> Seq<OutView> {
    let t = last_text(p);
    if t.len() > 0 { seq![OutView::Text(t)] } else { Seq::empty() }
}

/// The end of a choice; a choice ends once.
pub open spec fn ended(h: Head, index: int, stream: bool, c: ChoiceView, f: Ended) -> Stepped {
    if c.finish is Some {
        Stepped { choice: c, chunks: Seq::empty() }
    } else {
        let outs = last_outs(c.parser);
        let s = forwarded(
            h,
            index,
            stream,
            ChoiceView {
                parser: StreamView { buf: Seq::empty(), in_call: false, n_calls: c.parser.n_calls },
                ..c
            },
            outs,
            outs.len() as int,
        );
        Stepped {
            choice: ChoiceView { finish: Some(f), ..s.choice },
            chunks: if stream {
                s.chunks.push(
                    chunk_text(
                        h,
                        index,
                        JsonView::Object(Seq::empty()),
                        Some(finish_text(s.choice.calls.len() as int, f.reason)),
                    ),
                )
            } else {
                s.chunks
            },
        }
    }
}

pub struct Call {
    name: String,
    arguments: String,
}

impl View for Call {
    type V = CallText;

    closed spec fn view(&self) -> CallText {
        CallText { name: self.name@, arguments: self.arguments@ }
    }
}

pub open spec fn calls_view(v: Seq<Call>) -> Seq<CallText> {
    Seq::new(v.len(), |i: int| v[i]@)
}

pub struct HttpChoice {
    parser: ToolStream,
    content: String,
    reasoning: String,
    calls: Vec<Call>,
    finish: Option<Ended>,
}

impl View for HttpChoice {
    type V = ChoiceView;

    closed spec fn view(&self) -> ChoiceView {
        ChoiceView {
            parser: self.parser.view(),
            tools: self.parser.tools(),
            content: self.content@,
            reasoning: self.reasoning@,
            calls: calls_view(self.calls@),
            finish: self.finish,
        }
    }
}

fn event_of(v: &Json) -> (s: String)
    ensures
        s@ == event_text(v@),
{
    let mut s: String = owned("data: ");
    push_text(&mut s, to_compact(v).as_str());
    push_text(&mut s, "\n\n");
    s
}

/// What is sent of one step of choice `index`.
pub fn completion_chunk(
    tail: &str,
    created: u64,
    model: &str,
    index: usize,
    delta: Json,
    reason: Option<&str>,
) -> (s: String)
    ensures
        s@ == chunk_text(
            (Head { tail: tail@, created, model: model@ }),
            index as int,
            delta@,
            match reason {
                Some(r) => Some(r@),
                None => None,
            },
        ),
{
    let ghost h = Head { tail: tail@, created, model: model@ };
    let ghost why = match reason {
        Some(r) => Some(r@),
        None => None,
    };
    let mut c: Vec<(String, Json)> = no_members();
    push_entry(&mut c, "index", number(index as u64));
    push_entry(&mut c, "delta", delta);
    push_entry(&mut c, "logprobs", Json::Null);
    push_entry(
        &mut c,
        "finish_reason",
        match reason {
            Some(r) => text_value(r),
            None => Json::Null,
        },
    );
    assert(members_view(c@) =~= seq![
        entry("index"@, number_view(index as nat)),
        entry("delta"@, delta@),
        entry("logprobs"@, JsonView::Null),
        entry("finish_reason"@, opt_json(why)),
    ]);
    let mut m: Vec<(String, Json)> = no_members();
    push_entry(&mut m, "id", text_value(concat("chatcmpl-", tail).as_str()));
    push_entry(&mut m, "object", text_value("chat.completion.chunk"));
    push_entry(&mut m, "created", number(created));
    push_entry(&mut m, "model", text_value(model));
    push_entry(&mut m, "choices", array_of(object(c)));
    assert(members_view(m@) =~= chunk_view(h, index as int, delta@, why)->Object_0);
    let j: Json = object(m);
    event_of(&j)
}

/// A delta with one text in it.
fn delta_of(key: &str, t: &str) -> (j: Json)
    ensures
        j@ == text_delta(key@, t@),
{
    object_of(key, text_value(t))
}

/// The members of a call as JSON.
fn call_entries(tail: &str, index: usize, k: usize, c: &Call) -> (m: Vec<(String, Json)>)
    ensures
        members_view(m@) == call_members(tail@, index as int, k as int, c@),
{
    let mut id: String = owned("call_");
    push_text(&mut id, tail);
    push_text(&mut id, "_");
    push_decimal(&mut id, index as u64);
    push_text(&mut id, "_");
    push_decimal(&mut id, k as u64);
    let mut f: Vec<(String, Json)> = no_members();
    push_entry(&mut f, "name", text_value(c.name.as_str()));
    push_entry(&mut f, "arguments", text_value(c.arguments.as_str()));
    assert(members_view(f@) =~= seq![
        entry("name"@, JsonView::Text(c@.name)),
        entry("arguments"@, JsonView::Text(c@.arguments)),
    ]);
    let mut m: Vec<(String, Json)> = no_members();
    push_entry(&mut m, "id", text_value(id.as_str()));
    push_entry(&mut m, "type", text_value("function"));
    push_entry(&mut m, "function", object(f));
    assert(members_view(m@) =~= call_members(tail@, index as int, k as int, c@));
    m
}

/// An object as JSON text.
fn arguments_text(m: Vec<(String, Json)>) -> (s: String)
    ensures
        s@ == compact(JsonView::Object(members_view(m@))),
{
    let j: Json = object(m);
    to_compact(&j)
}

impl HttpChoice {
    /// A choice of which nothing is there yet.
    pub fn new(specs: Vec<ToolSpec>) -> (c: HttpChoice)
        ensures
            c@ == (ChoiceView {
                parser: StreamView { buf: Seq::empty(), in_call: false, n_calls: 0 },
                tools: tools_view(specs@),
                content: Seq::empty(),
                reasoning: Seq::empty(),
                calls: Seq::empty(),
                finish: None,
            }),
    {
        let c = HttpChoice {
            parser: ToolStream::new(specs),
            content: String::new(),
            reasoning: String::new(),
            calls: Vec::new(),
            finish: None,
        };
        assert(c@.calls =~= Seq::<CallText>::empty());
        c
    }

    /// Forward pieces of the content stream; the chunks to send are appended.
    fn forward(
        &mut self,
        tail: &str,
        created: u64,
        model: &str,
        index: usize,
        stream: bool,
        outs: Vec<Out>,
        chunks: &mut Vec<String>,
    )
        ensures
            ({
                let h = Head { tail: tail@, created, model: model@ };
                let o = outs_view(outs@);
                let s = forwarded(h, index as int, stream, old(self)@, o, o.len() as int);
                final(self)@ == s.choice && texts(final(chunks)@) == texts(old(chunks)@) + s.chunks
            }),
    {
        let ghost h = Head { tail: tail@, created, model: model@ };
        let ghost o = outs_view(outs@);
        let ghost c0 = self@;
        let ghost t0 = texts(chunks@);
        let mut rest: Vec<Out> = outs;
        let n: usize = rest.len();
        let mut i: usize = 0;
        assert(texts(chunks@) =~= t0 + Seq::<Seq<char>>::empty());
        assert(rest@ =~= outs@.skip(0));
        while i < n
            invariant
                i <= n,
                n == outs@.len(),
                rest@ == outs@.skip(i as int),
                o == outs_view(outs@),
                h == (Head { tail: tail@, created, model: model@ }),
                self@ == forwarded(h, index as int, stream, c0, o, i as int).choice,
                texts(chunks@) == t0 + forwarded(h, index as int, stream, c0, o, i as int).chunks,
            decreases n - i,
        {
            let ghost s = forwarded(h, index as int, stream, c0, o, i as int);
            let ghost next = forwarded(h, index as int, stream, c0, o, i + 1);
            let ghost before = chunks@;
            let piece: Out = rest.remove(0);
            assert(rest@ =~= outs@.skip(i + 1));
            assert(o[i as int] == piece@);
            match piece {
                Out::Text(t) => {
                    if stream {
                        chunks.push(
                            completion_chunk(
                                tail,
                                created,
                                model,
                                index,
                                delta_of("content", t.as_str()),
                                None,
                            ),
                        );
                        assert(texts(chunks@) =~= texts(before).push(chunks@.last()@));
                        assert(texts(chunks@) =~= t0 + next.chunks);
                    } else {
                        push_text(&mut self.content, t.as_str());
                        assert(self@ =~= next.choice);
                    }
                },
                Out::Call(call) => {
                    let k: usize = self.calls.len();
                    let x = Call { name: call.name, arguments: arguments_text(call.arguments) };
                    if stream {
                        let mut m: Vec<(String, Json)> = call_entries(tail, index, k, &x);
                        push_entry(&mut m, "index", number(k as u64));
                        let delta: Json = object_of("tool_calls", array_of(object(m)));
                        assert(delta@ == call_delta(tail@, index as int, k as int, x@));
                        chunks.push(completion_chunk(tail, created, model, index, delta, None));
                        assert(texts(chunks@) =~= texts(before).push(chunks@.last()@));
                        assert(texts(chunks@) =~= t0 + next.chunks);
                    }
                    let ghost calls = self.calls@;
                    self.calls.push(x);
                    assert(calls_view(self.calls@) =~= calls_view(calls).push(x@));
                    assert(self@ =~= next.choice);
                },
            }
            i = i + 1;
        }
    }
}

// ---- the whole answer -----------------------------------------------------------------------

#[verifier::ext_equal]
pub struct CompletionView {
    pub head: Head,
    pub stream: bool,
    pub include_usage: bool,
    pub n_prompt: int,
    pub choices: Seq<ChoiceView>,
    /// Whether something was sent.
    pub started: bool,
    /// How many choices have ended.
    pub done: int,
}

/// An answer and the chunks that an event sends.
#[verifier::ext_equal]
pub struct Advanced {
    pub state: CompletionView,
    pub chunks: Seq<Seq<char>>,
}

/// The beginnings of the first `n` choices.
pub open spec fn beginnings(h: Head, n: int) -> Seq<Seq<char>>
    decreases n,
{
    if n <= 0 {
        Seq::empty()
    } else {
        beginnings(h, n - 1).push(chunk_text(h, n - 1, role_delta(), None))
    }
}

pub const BAD_INDEX: &'static str = "invalid choice index from engine";

impl CompletionView {
    /// What one event of choice `index` does to the choice.
    pub open spec fn step<F>(self, index: int, e: Event<F>) -> Stepped {
        let c = self.choices[index];
        match e {
            Event::Reasoning(t) => if self.stream {
                Stepped {
                    choice: c,
                    chunks: seq![
                        chunk_text(self.head, index, text_delta("reasoning_content"@, t@), None),
                    ],
                }
            } else {
                Stepped {
                    choice: ChoiceView { reasoning: c.reasoning + t@, ..c },
                    chunks: Seq::empty(),
                }
            },
            Event::Content(t) => with_content(self.head, index, self.stream, c, t@),
            Event::Done(f) => ended(
                self.head,
                index,
                self.stream,
                c,
                Ended {
                    reason: f.reason,
                    completion_tokens: f.completion_tokens,
                    reasoning_tokens: f.reasoning_tokens,
                },
            ),
            _ => Stepped { choice: c, chunks: Seq::empty() },
        }
    }

    /// The answer after an event of choice `index`: the first one of a stream lets every choice
    /// begin.
    pub open spec fn after<F>(self, index: int, e: Event<F>) -> Advanced {
        let s = self.step(index, e);
        let opening = self.stream && !self.started;
        Advanced {
            state: CompletionView {
                choices: self.choices.update(index, s.choice),
                started: self.started || self.stream,
                done: self.done + if e is Done && self.choices[index].finish is None {
                    1int
                } else {
                    0int
                },
                ..self
            },
            chunks: (if opening {
                beginnings(self.head, self.choices.len() as int)
            } else {
                Seq::empty()
            }) + s.chunks,
        }
    }
}

/// The answer to a chat-completions request in the making.
pub struct Completion {
    tail: String,
    created: u64,
    model: String,
    stream: bool,
    include_usage: bool,
    n_prompt: usize,
    choices: Vec<HttpChoice>,
    started: bool,
    done: usize,
}

pub open spec fn choice_views(v: Seq<HttpChoice>) -> Seq<ChoiceView> {
    Seq::new(v.len(), |i: int| v[i]@)
}

impl View for Completion {
    type V = CompletionView;

    closed spec fn view(&self) -> CompletionView {
        CompletionView {
            head: Head { tail: self.tail@, created: self.created, model: self.model@ },
            stream: self.stream,
            include_usage: self.include_usage,
            n_prompt: self.n_prompt as int,
            choices: choice_views(self.choices@),
            started: self.started,
            done: self.done as int,
        }
    }
}

/// How many of the first `n` choices have ended.
pub open spec fn ended_count(c: Seq<ChoiceView>, n: int) -> int
    decreases n,
{
    if n <= 0 {
        0
    } else {
        ended_count(c, n - 1) + if c[n - 1].finish is Some { 1int } else { 0int }
    }
}

proof fn lemma_ended_count(c: Seq<ChoiceView>, n: int)
    requires
        0 <= n <= c.len(),
    ensures
        0 <= ended_count(c, n) <= n,
        ended_count(c, n) == n ==> forall|i: int| 0 <= i < n ==> (#[trigger] c[i]).finish is Some,
    decreases n,
{
    if n > 0 {
        lemma_ended_count(c, n - 1);
    }
}

proof fn lemma_ended_update(c: Seq<ChoiceView>, i: int, x: ChoiceView, n: int)
    requires
        0 <= i < c.len(),
        0 <= n <= c.len(),
    ensures
        ended_count(c.update(i, x), n) == ended_count(c, n) + if i < n {
            (if x.finish is Some { 1int } else { 0int }) - (if c[i].finish is Some { 1int } else { 0int })
        } else {
            0
        },
    decreases n,
{
    if n > 0 {
        lemma_ended_update(c, i, x, n - 1);
    }
}

proof fn lemma_forwarded_keeps_finish(
    h: Head,
    index: int,
    stream: bool,
    c: ChoiceView,
    outs: Seq<OutView>,
    n: int,
)
    ensures
        forwarded(h, index, stream, c, outs, n).choice.finish == c.finish,
    decreases n,
{
    if n > 0 {
        lemma_forwarded_keeps_finish(h, index, stream, c, outs, n - 1);
    }
}

impl Completion {
    /// The count of ended choices is right.
    pub closed spec fn sound(&self) -> bool {
        self.done == ended_count(self@.choices, self@.choices.len() as int)
    }

    /// An answer of `count` choices, of which nothing is there yet.
    pub fn new(
        tail: &str,
        created: u64,
        model: &str,
        stream: bool,
        include_usage: bool,
        n_prompt: usize,
        specs: &Vec<ToolSpec>,
        count: usize,
    ) -> (c: Completion)
        ensures
            c.sound(),
            c@.head == (Head { tail: tail@, created, model: model@ }),
            c@.stream == stream,
            c@.include_usage == include_usage,
            c@.n_prompt == n_prompt,
            !c@.started,
            c@.done == 0,
            c@.choices.len() == count,
            forall|i: int|
                0 <= i < count ==> (#[trigger] c@.choices[i]) == (ChoiceView {
                    parser: StreamView { buf: Seq::empty(), in_call: false, n_calls: 0 },
                    tools: tools_view(specs@),
                    content: Seq::empty(),
                    reasoning: Seq::empty(),
                    calls: Seq::empty(),
                    finish: None,
                }),
    {
        let mut choices: Vec<HttpChoice> = Vec::new();
        let mut i: usize = 0;
        while i < count
            invariant
                i <= count,
                choices@.len() == i,
                forall|j: int|
                    0 <= j < i ==> (#[trigger] choices@[j])@ == (ChoiceView {
                        parser: StreamView { buf: Seq::empty(), in_call: false, n_calls: 0 },
                        tools: tools_view(specs@),
                        content: Seq::empty(),
                        reasoning: Seq::empty(),
                        calls: Seq::empty(),
                        finish: None,
                    }),
            decreases count - i,
        {
            choices.push(HttpChoice::new(copy_specs(specs)));
            i = i + 1;
        }
        let c = Completion {
            tail: owned(tail),
            created,
            model: owned(model),
            stream,
            include_usage,
            n_prompt,
            choices,
            started: false,
            done: 0,
        };
        proof {
            assert(c@.choices.len() == count);
            assert forall|j: int| 0 <= j < count implies (#[trigger] c@.choices[j]).finish is None by {
                assert(c@.choices[j] == choices@[j]@);
            }
            lemma_none_ended(c@.choices, count as int);
        }
        c
    }

    /// Whether something was sent.
    pub fn started(&self) -> (r: bool)
        ensures
            r == self@.started,
    {
        self.started
    }

    /// Whether every choice has ended.
    pub fn complete(&self) -> (r: bool)
        requires
            self.sound(),
        ensures
            r == (self@.done == self@.choices.len()),
            r ==> forall|i: int| 0 <= i < self@.choices.len() ==> (#[trigger] self@.choices[i]).finish is Some,
    {
        proof {
            lemma_ended_count(self@.choices, self@.choices.len() as int);
        }
        self.done >= self.choices.len()
    }

    /// Take an event of choice `index`; the chunks to send, or why the answer fails.
    pub fn event<F>(&mut self, index: usize, e: Event<F>) -> (r: Result<Vec<String>, String>)
        requires
            old(self).sound(),
        ensures
            final(self).sound(),
            e matches Event::Error(m) ==> (r matches Err(x) && x@ == m@) && *final(self) == *old(self),
            !(e is Error) && index >= old(self)@.choices.len() ==> (r matches Err(x) && x@ == BAD_INDEX@)
                && *final(self) == *old(self),
            !(e is Error) && index < old(self)@.choices.len() ==> ({
                let a = old(self)@.after(index as int, e);
                (r matches Ok(v) && texts(v@) == a.chunks) && final(self)@ == a.state
            }),
    {
        if let Event::Error(m) = e {
            return Err(m);
        }
        if index >= self.choices.len() {
            return Err(owned(BAD_INDEX));
        }
        let ghost v0 = self@;
        let ghost h = v0.head;
        let ghost i = index as int;
        let count: usize = self.choices.len();
        let mut chunks: Vec<String> = Vec::new();
        assert(texts(chunks@) =~= Seq::<Seq<char>>::empty());
        if self.stream && !self.started {
            self.started = true;
            let mut k: usize = 0;
            while k < count
                invariant
                    k <= count,
                    h == (Head { tail: self.tail@, created: self.created, model: self.model@ }),
                    texts(chunks@) == beginnings(h, k as int),
                decreases count - k,
            {
                let mut m: Vec<(String, Json)> = no_members();
                push_entry(&mut m, "role", text_value("assistant"));
                push_entry(&mut m, "content", text_value(""));
                assert(members_view(m@) =~= role_delta()->Object_0);
                let ghost before = chunks@;
                chunks.push(
                    completion_chunk(
                        self.tail.as_str(),
                        self.created,
                        self.model.as_str(),
                        k,
                        object(m),
                        None,
                    ),
                );
                assert(texts(chunks@) =~= texts(before).push(chunks@.last()@));
                k = k + 1;
            }
        }
        let ghost opened = texts(chunks@);
        let ghost c0 = self.choices@[i]@;
        assert(c0 == v0.choices[i]);
        let ghost list0 = self.choices@;
        match e {
            Event::Reasoning(t) => {
                if self.stream {
                    let ghost before = chunks@;
                    chunks.push(
                        completion_chunk(
                            self.tail.as_str(),
                            self.created,
                            self.model.as_str(),
                            index,
                            delta_of("reasoning_content", t.as_str()),
                            None,
                        ),
                    );
                    assert(texts(chunks@) =~= texts(before).push(chunks@.last()@));
                    assert(texts(chunks@) =~= opened + v0.step(i, e).chunks);
                } else {
                    push_text(&mut self.choices[index].reasoning, t.as_str());
                    assert(self.choices@[i]@ =~= v0.step(i, e).choice);
                    assert(texts(chunks@) =~= opened + v0.step(i, e).chunks);
                }
            },
            Event::Content(t) => {
                let outs: Vec<Out> = self.choices[index].parser.push(t.as_str());
                let ghost r = run(
                    StreamView { buf: c0.parser.buf + t@, ..c0.parser },
                    c0.tools,
                    Seq::empty(),
                );
                assert(self.choices@[i]@ =~= (ChoiceView { parser: r.state, ..c0 }));
                self.choices[index].forward(
                    self.tail.as_str(),
                    self.created,
                    self.model.as_str(),
                    index,
                    self.stream,
                    outs,
                    &mut chunks,
                );
                proof {
                    lemma_forwarded_keeps_finish(
                        h,
                        i,
                        v0.stream,
                        ChoiceView { parser: r.state, ..c0 },
                        r.outs,
                        r.outs.len() as int,
                    );
                }
            },
            Event::Done(f) => {
                if self.choices[index].finish.is_none() {
                    let outs: Vec<Out> = self.choices[index].parser.finish();
                    let ghost c1 = ChoiceView {
                        parser: StreamView {
                            buf: Seq::empty(),
                            in_call: false,
                            n_calls: c0.parser.n_calls,
                        },
                        ..c0
                    };
                    assert(self.choices@[i]@ =~= c1);
                    assert(outs_view(outs@) == last_outs(c0.parser));
                    self.choices[index].forward(
                        self.tail.as_str(),
                        self.created,
                        self.model.as_str(),
                        index,
                        self.stream,
                        outs,
                        &mut chunks,
                    );
                    proof {
                        lemma_forwarded_keeps_finish(
                            h,
                            i,
                            v0.stream,
                            c1,
                            last_outs(c0.parser),
                            last_outs(c0.parser).len() as int,
                        );
                        lemma_ended_count(v0.choices, v0.choices.len() as int);
                        lemma_ended_update(v0.choices, i, v0.step(i, e).choice, v0.choices.len() as int);
                        lemma_ended_count(
                            v0.choices.update(i, v0.step(i, e).choice),
                            v0.choices.len() as int,
                        );
                    }
                    let reason: &str = choice_finish(self.choices[index].calls.len(), f.reason);
                    if self.stream {
                        let ghost before = chunks@;
                        let m: Vec<(String, Json)> = no_members();
                        chunks.push(
                            completion_chunk(
                                self.tail.as_str(),
                                self.created,
                                self.model.as_str(),
                                index,
                                object(m),
                                Some(reason),
                            ),
                        );
                        assert(texts(chunks@) =~= texts(before).push(chunks@.last()@));
                    }
                    self.choices[index].finish = Some(
                        Ended {
                            reason: f.reason,
                            completion_tokens: f.completion_tokens,
                            reasoning_tokens: f.reasoning_tokens,
                        },
                    );
                    self.done = self.done + 1;
                    assert(self.choices@[i]@ =~= v0.step(i, e).choice);
                    assert(texts(chunks@) =~= opened + v0.step(i, e).chunks);
                } else {
                    assert(texts(chunks@) =~= opened + v0.step(i, e).chunks);
                }
            },
            _ => {
                assert(texts(chunks@) =~= opened + v0.step(i, e).chunks);
            },
        }
        proof {
            assert(self@.choices =~= v0.choices.update(i, v0.step(i, e).choice)) by {
                assert forall|j: int| 0 <= j < count && j != i implies self.choices@[j] == list0[j] by {}
            }
            lemma_ended_update(v0.choices, i, v0.step(i, e).choice, v0.choices.len() as int);
            assert(self@ =~= v0.after(i, e).state);
            assert(texts(chunks@) =~= v0.after(i, e).chunks);
        }
        Ok(chunks)
    }
}

proof fn lemma_none_ended(c: Seq<ChoiceView>, n: int)
    requires
        0 <= n <= c.len(),
        forall|i: int| 0 <= i < n ==> (#[trigger] c[i]).finish is None,
    ensures
        ended_count(c, n) == 0,
    decreases n,
{
    if n > 0 {
        lemma_none_ended(c, n - 1);
        assert(c[n - 1].finish is None);
    }
}

fn copy_specs(v: &Vec<ToolSpec>) -> (r: Vec<ToolSpec>)
    ensures
        tools_view(r@) == tools_view(v@),
{
    let mut r: Vec<ToolSpec> = Vec::new();
    let n: usize = v.len();
    let mut i: usize = 0;
    while i < n
        invariant
            i <= n,
            n == v@.len(),
            r@.len() == i,
            forall|j: int| 0 <= j < i ==> (#[trigger] r@[j])@ == v@[j]@,
        decreases n - i,
    {
        r.push(v[i].duplicate());
        i = i + 1;
    }
    assert(tools_view(r@) =~= tools_view(v@));
    r
}

// ---- the end --------------------------------------------------------------------------------

/// The completion tokens of the first `n` choices.
pub open spec fn completion_tokens(c: Seq<ChoiceView>, n: int) -> int
    decreases n,
{
    if n <= 0 {
        0
    } else {
        completion_tokens(c, n - 1) + match c[n - 1].finish {
            Some(f) => f.completion_tokens as int,
            None => 0,
        }
    }
}

/// The reasoning tokens of the first `n` choices.
pub open spec fn reasoning_tokens(c: Seq<ChoiceView>, n: int) -> int
    decreases n,
{
    if n <= 0 {
        0
    } else {
        reasoning_tokens(c, n - 1) + match c[n - 1].finish {
            Some(f) => f.reasoning_tokens as int,
            None => 0,
        }
    }
}

impl CompletionView {
    /// The tokens that were used.
    pub open spec fn usage(self) -> JsonView {
        let n = self.choices.len() as int;
        let done = completion_tokens(self.choices, n);
        JsonView::Object(
            seq![
                entry("prompt_tokens"@, number_view(self.n_prompt as nat)),
                entry("completion_tokens"@, number_view(done as nat)),
                entry("total_tokens"@, number_view((self.n_prompt + done) as nat)),
                entry(
                    "completion_tokens_details"@,
                    JsonView::Object(
                        seq![
                            entry(
                                "reasoning_tokens"@,
                                number_view(reasoning_tokens(self.choices, n) as nat),
                            ),
                        ],
                    ),
                ),
            ],
        )
    }

    /// The counts fit their numbers.
    pub open spec fn countable(self) -> bool {
        let n = self.choices.len() as int;
        self.n_prompt + completion_tokens(self.choices, n) <= u64::MAX && reasoning_tokens(
            self.choices,
            n,
        ) <= u64::MAX
    }

    /// The last chunk of a stream that reports usage.
    pub open spec fn usage_chunk(self) -> JsonView {
        JsonView::Object(
            seq![
                entry("id"@, JsonView::Text(self.head.id())),
                entry("object"@, JsonView::Text("chat.completion.chunk"@)),
                entry("created"@, number_view(self.head.created as nat)),
                entry("model"@, JsonView::Text(self.head.model)),
                entry("choices"@, JsonView::Array(Seq::empty())),
                entry("usage"@, self.usage()),
            ],
        )
    }

    /// The calls of a choice.
    pub open spec fn call_items(self, index: int) -> Seq<JsonView> {
        let c = self.choices[index].calls;
        Seq::new(c.len(), |k: int| JsonView::Object(call_members(self.head.tail, index, k, c[k])))
    }

    /// The message of choice `index`: no content beside calls alone, and only what there is of
    /// calls and reasoning.
    pub open spec fn message(self, index: int) -> JsonView {
        let c = self.choices[index];
        let a = seq![
            entry("role"@, JsonView::Text("assistant"@)),
            entry(
                "content"@,
                if c.content.len() == 0 && c.calls.len() > 0 {
                    JsonView::Null
                } else {
                    JsonView::Text(c.content)
                },
            ),
        ];
        let b = if c.calls.len() > 0 {
            a.push(entry("tool_calls"@, JsonView::Array(self.call_items(index))))
        } else {
            a
        };
        JsonView::Object(
            if c.reasoning.len() > 0 {
                b.push(entry("reasoning_content"@, JsonView::Text(c.reasoning)))
            } else {
                b
            },
        )
    }

    /// Choice `index` of the whole answer.
    pub open spec fn choice_item(self, index: int) -> JsonView {
        let c = self.choices[index];
        JsonView::Object(
            seq![
                entry("index"@, number_view(index as nat)),
                entry("message"@, self.message(index)),
                entry("logprobs"@, JsonView::Null),
                entry(
                    "finish_reason"@,
                    JsonView::Text(finish_text(c.calls.len() as int, c.finish->0.reason)),
                ),
            ],
        )
    }

    /// The whole answer.
    pub open spec fn body(self) -> JsonView {
        JsonView::Object(
            seq![
                entry("id"@, JsonView::Text(self.head.id())),
                entry("object"@, JsonView::Text("chat.completion"@)),
                entry("created"@, number_view(self.head.created as nat)),
                entry("model"@, JsonView::Text(self.head.model)),
                entry(
                    "choices"@,
                    JsonView::Array(Seq::new(self.choices.len(), |i: int| self.choice_item(i))),
                ),
                entry("usage"@, self.usage()),
            ],
        )
    }
}

/// How a response ends.
pub enum Ending {
    /// The rest of an event stream.
    Chunks(Vec<String>),
    /// A whole body with its status.
    Body(u16, String),
}

proof fn lemma_tokens_grow(c: Seq<ChoiceView>, m: int, n: int)
    requires
        0 <= m <= n <= c.len(),
    ensures
        0 <= completion_tokens(c, m) <= completion_tokens(c, n),
        0 <= reasoning_tokens(c, m) <= reasoning_tokens(c, n),
    decreases n,
{
    if m < n {
        lemma_tokens_grow(c, m, n - 1);
    } else if n > 0 {
        lemma_tokens_grow(c, n - 1, n - 1);
    }
}

impl Completion {
    fn usage_json(&self) -> (j: Json)
        requires
            self@.countable(),
        ensures
            j@ == self@.usage(),
    {
        let n: usize = self.choices.len();
        let mut done: u64 = 0;
        let mut thought: u64 = 0;
        let mut i: usize = 0;
        while i < n
            invariant
                i <= n,
                n == self.choices@.len(),
                self@.countable(),
                done == completion_tokens(self@.choices, i as int),
                thought == reasoning_tokens(self@.choices, i as int),
            decreases n - i,
        {
            proof {
                lemma_tokens_grow(self@.choices, i + 1, n as int);
                assert(self@.choices[i as int] == self.choices@[i as int]@);
            }
            match self.choices[i].finish {
                Some(f) => {
                    done = done + f.completion_tokens as u64;
                    thought = thought + f.reasoning_tokens as u64;
                },
                None => {},
            }
            i = i + 1;
        }
        let mut m: Vec<(String, Json)> = no_members();
        push_entry(&mut m, "prompt_tokens", number(self.n_prompt as u64));
        push_entry(&mut m, "completion_tokens", number(done));
        push_entry(&mut m, "total_tokens", number(self.n_prompt as u64 + done));
        push_entry(
            &mut m,
            "completion_tokens_details",
            object_of("reasoning_tokens", number(thought)),
        );
        assert(members_view(m@) =~= self@.usage()->Object_0);
        object(m)
    }

    fn message_json(&self, index: usize) -> (j: Json)
        requires
            index < self@.choices.len(),
        ensures
            j@ == self@.message(index as int),
    {
        let c: &HttpChoice = &self.choices[index];
        let ghost v = self@.choices[index as int];
        assert(v == c@);
        let k: usize = c.calls.len();
        let mut m: Vec<(String, Json)> = no_members();
        push_entry(&mut m, "role", text_value("assistant"));
        push_entry(
            &mut m,
            "content",
            if c.content.as_str().is_empty() && k > 0 {
                Json::Null
            } else {
                text_value(c.content.as_str())
            },
        );
        let ghost a = members_view(m@);
        if k > 0 {
            let mut items: Vec<Json> = Vec::new();
            let mut i: usize = 0;
            while i < k
                invariant
                    i <= k,
                    k == c.calls@.len(),
                    v == c@,
                    index < self@.choices.len(),
                    v == self@.choices[index as int],
                    items@.len() == i,
                    forall|x: int|
                        0 <= x < i ==> (#[trigger] items@[x])@ == self@.call_items(index as int)[x],
                decreases k - i,
            {
                let e: Vec<(String, Json)> = call_entries(self.tail.as_str(), index, i, &c.calls[i]);
                assert(v.calls[i as int] == c.calls@[i as int]@);
                items.push(object(e));
                i = i + 1;
            }
            proof {
                lemma_array_view(items);
                assert(items_view(items@) =~= self@.call_items(index as int));
            }
            push_entry(&mut m, "tool_calls", Json::Array(items));
        }
        if !c.reasoning.as_str().is_empty() {
            push_entry(&mut m, "reasoning_content", text_value(c.reasoning.as_str()));
        }
        assert(members_view(m@) =~= self@.message(index as int)->Object_0);
        object(m)
    }

    fn choice_json(&self, index: usize) -> (j: Json)
        requires
            index < self@.choices.len(),
            self@.choices[index as int].finish is Some,
        ensures
            j@ == self@.choice_item(index as int),
    {
        let c: &HttpChoice = &self.choices[index];
        assert(self@.choices[index as int] == c@);
        let reason: Reason = match c.finish {
            Some(f) => f.reason,
            None => Reason::Stop,
        };
        let mut m: Vec<(String, Json)> = no_members();
        push_entry(&mut m, "index", number(index as u64));
        push_entry(&mut m, "message", self.message_json(index));
        push_entry(&mut m, "logprobs", Json::Null);
        push_entry(&mut m, "finish_reason", text_value(choice_finish(c.calls.len(), reason)));
        assert(members_view(m@) =~= self@.choice_item(index as int)->Object_0);
        object(m)
    }

    fn head_entries(&self, kind: &str) -> (m: Vec<(String, Json)>)
        ensures
            members_view(m@) == seq![
                entry("id"@, JsonView::Text(self@.head.id())),
                entry("object"@, JsonView::Text(kind@)),
                entry("created"@, number_view(self@.head.created as nat)),
                entry("model"@, JsonView::Text(self@.head.model)),
            ],
    {
        let mut m: Vec<(String, Json)> = no_members();
        push_entry(&mut m, "id", text_value(concat("chatcmpl-", self.tail.as_str()).as_str()));
        push_entry(&mut m, "object", text_value(kind));
        push_entry(&mut m, "created", number(self.created));
        push_entry(&mut m, "model", text_value(self.model.as_str()));
        assert(members_view(m@) =~= seq![
            entry("id"@, JsonView::Text(self@.head.id())),
            entry("object"@, JsonView::Text(kind@)),
            entry("created"@, number_view(self@.head.created as nat)),
            entry("model"@, JsonView::Text(self@.head.model)),
        ]);
        m
    }

    /// The end of an answer whose choices have all ended: the rest of the stream, with the usage
    /// where it was asked for, or the whole body.
    pub fn finish(&self) -> (r: Ending)
        requires
            self@.countable(),
            forall|i: int| 0 <= i < self@.choices.len() ==> (#[trigger] self@.choices[i]).finish is Some,
        ensures
            if self@.stream {
                r matches Ending::Chunks(v) && texts(v@) == if self@.include_usage {
                    seq![event_text(self@.usage_chunk()), DONE@]
                } else {
                    seq![DONE@]
                }
            } else {
                r matches Ending::Body(status, s) && status == 200 && s@ == compact(self@.body())
            },
    {
        if self.stream {
            let mut v: Vec<String> = Vec::new();
            if self.include_usage {
                let mut m: Vec<(String, Json)> = self.head_entries("chat.completion.chunk");
                let none: Vec<Json> = Vec::new();
                proof {
                    lemma_array_view(none);
                    assert(items_view(none@) =~= Seq::<JsonView>::empty());
                }
                push_entry(&mut m, "choices", Json::Array(none));
                push_entry(&mut m, "usage", self.usage_json());
                assert(members_view(m@) =~= self@.usage_chunk()->Object_0);
                let j: Json = object(m);
                v.push(event_of(&j));
            }
            v.push(owned(DONE));
            assert(texts(v@) =~= if self@.include_usage {
                seq![event_text(self@.usage_chunk()), DONE@]
            } else {
                seq![DONE@]
            });
            Ending::Chunks(v)
        } else {
            let n: usize = self.choices.len();
            let mut items: Vec<Json> = Vec::new();
            let mut i: usize = 0;
            while i < n
                invariant
                    i <= n,
                    n == self.choices@.len(),
                    forall|k: int|
                        0 <= k < self@.choices.len() ==> (#[trigger] self@.choices[k]).finish is Some,
                    items@.len() == i,
                    forall|k: int| 0 <= k < i ==> (#[trigger] items@[k])@ == self@.choice_item(k),
                decreases n - i,
            {
                assert(self@.choices[i as int].finish is Some);
                items.push(self.choice_json(i));
                i = i + 1;
            }
            proof {
                lemma_array_view(items);
                assert(items_view(items@) =~= Seq::new(
                    self@.choices.len(),
                    |i: int| self@.choice_item(i),
                ));
            }
            let mut m: Vec<(String, Json)> = self.head_entries("chat.completion");
            push_entry(&mut m, "choices", Json::Array(items));
            push_entry(&mut m, "usage", self.usage_json());
            assert(members_view(m@) =~= self@.body()->Object_0);
            let j: Json = object(m);
            Ending::Body(200, to_compact(&j))
        }
    }

    /// The end of an answer that failed: an error body, or an error event where the stream has
    /// begun.
    pub fn fail(&self, message: &str) -> (r: Ending)
        ensures
            if self@.started {
                r matches Ending::Chunks(v) && texts(v@) == seq![
                    event_text(error_view(500, message@)),
                    DONE@,
                ]
            } else {
                r matches Ending::Body(status, s) && status == 500 && s@ == compact(
                    error_view(500, message@),
                )
            },
    {
        let body: String = error_text(500, message);
        if self.started {
            let mut s: String = owned("data: ");
            push_text(&mut s, body.as_str());
            push_text(&mut s, "\n\n");
            assert(s@ == event_text(error_view(500, message@)));
            let mut v: Vec<String> = Vec::new();
            v.push(s);
            v.push(owned(DONE));
            assert(texts(v@) =~= seq![event_text(error_view(500, message@)), DONE@]);
            Ending::Chunks(v)
        } else {
            Ending::Body(500, body)
        }
    }
}

/// A choice ends once: when it is told again, nothing changes and nothing is sent.
pub proof fn law_second_end_is_ignored<F>(v: CompletionView, index: int, f: Finish<F>)
    requires
        0 <= index < v.choices.len(),
        v.choices[index].finish is Some,
        v.started,
    ensures
        v.after(index, Event::Done(f)).state == v,
        v.after(index, Event::Done(f)).chunks == Seq::<Seq<char>>::empty(),
{
    assert(v.choices.update(index, v.choices[index]) =~= v.choices);
    assert(v.after(index, Event::Done(f)).state =~= v);
}

/// A stream keeps none of the text that it sends on.
pub proof fn law_stream_keeps_no_text<F>(v: CompletionView, index: int, e: Event<F>)
    requires
        0 <= index < v.choices.len(),
        v.stream,
    ensures
        v.after(index, e).state.choices[index].content == v.choices[index].content,
        v.after(index, e).state.choices[index].reasoning == v.choices[index].reasoning,
{
    let c = v.choices[index];
    match e {
        Event::Content(t) => {
            let r = run(StreamView { buf: c.parser.buf + t@, ..c.parser }, c.tools, Seq::empty());
            lemma_stream_keeps_no_text(
                v.head,
                index,
                ChoiceView { parser: r.state, ..c },
                r.outs,
                r.outs.len() as int,
            );
        },
        Event::Done(f) => {
            let outs = last_outs(c.parser);
            lemma_stream_keeps_no_text(
                v.head,
                index,
                ChoiceView {
                    parser: StreamView { buf: Seq::empty(), in_call: false, n_calls: c.parser.n_calls },
                    ..c
                },
                outs,
                outs.len() as int,
            );
        },
        _ => {},
    }
}

proof fn lemma_stream_keeps_no_text(h: Head, index: int, c: ChoiceView, outs: Seq<OutView>, n: int)
    ensures
        forwarded(h, index, true, c, outs, n).choice.content == c.content,
        forwarded(h, index, true, c, outs, n).choice.reasoning == c.reasoning,
    decreases n,
{
    if n > 0 {
        lemma_stream_keeps_no_text(h, index, c, outs, n - 1);
    }
}

/// The numbers of the usage: the prompt's length, the sum of what the choices report, and the sum of
/// both; and of the completion how much was reasoning.
pub proof fn law_usage_adds_up(v: CompletionView)
    requires
        0 <= v.n_prompt,
        v.countable(),
    ensures
        ({
            let u = v.usage();
            let n = v.choices.len() as int;
            &&& u.at("prompt_tokens"@) matches Some(p) && u.at("completion_tokens"@) matches Some(c) && u.at(
                "total_tokens"@,
            ) matches Some(t) && p.number() matches Some(a) && c.number() matches Some(b) && t.number()
                matches Some(s) && a == v.n_prompt && b == completion_tokens(v.choices, n) && s == a + b
            &&& u.at("completion_tokens_details"@) matches Some(d) && d.at("reasoning_tokens"@) matches Some(
                r,
            ) && r.number() matches Some(x) && x == reasoning_tokens(v.choices, n)
        }),
{
    let n = v.choices.len() as int;
    lemma_tokens_grow(v.choices, 0, n);
    let done = completion_tokens(v.choices, n);
    let thought = reasoning_tokens(v.choices, n);
    reveal_strlit("prompt_tokens");
    reveal_strlit("completion_tokens");
    reveal_strlit("total_tokens");
    reveal_strlit("completion_tokens_details");
    assert("prompt_tokens"@.len() == 13 && "completion_tokens"@.len() == 17 && "total_tokens"@.len() == 12
        && "completion_tokens_details"@.len() == 25);
    let m = v.usage()->Object_0;
    let inner = seq![entry("reasoning_tokens"@, number_view(thought as nat))];
    lemma_found(m, 0, "prompt_tokens"@, number_view(v.n_prompt as nat));
    lemma_found(m, 1, "completion_tokens"@, number_view(done as nat));
    lemma_found(m, 2, "total_tokens"@, number_view((v.n_prompt + done) as nat));
    lemma_found(m, 3, "completion_tokens_details"@, JsonView::Object(inner));
    lemma_found(inner, 0, "reasoning_tokens"@, number_view(thought as nat));
    law_number_is_read_back(v.n_prompt as nat);
    law_number_is_read_back(done as nat);
    law_number_is_read_back((v.n_prompt + done) as nat);
    law_number_is_read_back(thought as nat);
}

/// Every choice counts with what its ending reports.
pub proof fn law_every_choice_counts(c: Seq<ChoiceView>, x: ChoiceView, f: Ended)
    requires
        x.finish == Some(f),
    ensures
        completion_tokens(c.push(x), c.len() as int + 1) == completion_tokens(c, c.len() as int)
            + f.completion_tokens,
        reasoning_tokens(c.push(x), c.len() as int + 1) == reasoning_tokens(c, c.len() as int)
            + f.reasoning_tokens,
        completion_tokens(Seq::empty(), 0) == 0,
        reasoning_tokens(Seq::empty(), 0) == 0,
{
    lemma_tokens_of_more(c, x, c.len() as int);
    assert(c.push(x)[c.len() as int] == x);
}

proof fn lemma_tokens_of_more(c: Seq<ChoiceView>, x: ChoiceView, n: int)
    requires
        n <= c.len(),
    ensures
        completion_tokens(c.push(x), n) == completion_tokens(c, n),
        reasoning_tokens(c.push(x), n) == reasoning_tokens(c, n),
    decreases n,
{
    if n > 0 {
        lemma_tokens_of_more(c, x, n - 1);
        assert(c.push(x)[n - 1] == c[n - 1]);
    }
}

/// The usage stands in the whole answer, and in the last chunk of a stream that reports it; the
/// answer has every choice in its place.
pub proof fn law_answer_holds_its_choices_and_usage(v: CompletionView, i: int)
    ensures
        v.body().at("usage"@) == Some(v.usage()),
        v.body().at("id"@) == Some(JsonView::Text("chatcmpl-"@ + v.head.tail)),
        v.body().at("object"@) == Some(JsonView::Text("chat.completion"@)),
        v.body().at("model"@) == Some(JsonView::Text(v.head.model)),
        v.body().at("created"@) matches Some(n) && n.number() == Some(v.head.created),
        v.body().at("choices"@) matches Some(JsonView::Array(a)) && a.len() == v.choices.len() && (0 <= i
            < a.len() ==> a[i] == v.choice_item(i)),
        v.usage_chunk().at("usage"@) == Some(v.usage()),
        v.usage_chunk().at("id"@) == Some(JsonView::Text("chatcmpl-"@ + v.head.tail)),
        v.usage_chunk().at("object"@) == Some(JsonView::Text("chat.completion.chunk"@)),
        v.usage_chunk().at("model"@) == Some(JsonView::Text(v.head.model)),
        v.usage_chunk().at("created"@) matches Some(n) && n.number() == Some(v.head.created),
        v.usage_chunk().at("choices"@) == Some(JsonView::Array(Seq::empty())),
{
    lemma_head_keys();
    let m = v.body()->Object_0;
    let a = JsonView::Array(Seq::new(v.choices.len(), |i: int| v.choice_item(i)));
    lemma_found(m, 0, "id"@, JsonView::Text(v.head.id()));
    lemma_found(m, 1, "object"@, JsonView::Text("chat.completion"@));
    lemma_found(m, 2, "created"@, number_view(v.head.created as nat));
    lemma_found(m, 3, "model"@, JsonView::Text(v.head.model));
    lemma_found(m, 4, "choices"@, a);
    lemma_found(m, 5, "usage"@, v.usage());
    let m = v.usage_chunk()->Object_0;
    lemma_found(m, 0, "id"@, JsonView::Text(v.head.id()));
    lemma_found(m, 1, "object"@, JsonView::Text("chat.completion.chunk"@));
    lemma_found(m, 2, "created"@, number_view(v.head.created as nat));
    lemma_found(m, 3, "model"@, JsonView::Text(v.head.model));
    lemma_found(m, 4, "choices"@, JsonView::Array(Seq::empty()));
    lemma_found(m, 5, "usage"@, v.usage());
    law_number_is_read_back(v.head.created as nat);
}

proof fn lemma_head_keys()
    ensures
        "id"@.len() == 2 && "object"@.len() == 6 && "created"@.len() == 7 && "model"@.len() == 5,
        "choices"@.len() == 7 && "usage"@.len() == 5,
        "created"@[1] == 'r' && "choices"@[1] == 'h' && "model"@[0] == 'm' && "usage"@[0] == 'u',
        "index"@.len() == 5 && "message"@.len() == 7 && "logprobs"@.len() == 8 && "finish_reason"@.len() == 13,
        "delta"@.len() == 5 && "delta"@[0] == 'd' && "index"@[0] == 'i',
        "role"@.len() == 4 && "content"@.len() == 7 && "tool_calls"@.len() == 10 && "reasoning_content"@.len()
            == 17,
        "type"@.len() == 4 && "function"@.len() == 8 && "name"@.len() == 4 && "arguments"@.len() == 9,
{
    reveal_strlit("id");
    reveal_strlit("object");
    reveal_strlit("created");
    reveal_strlit("model");
    reveal_strlit("choices");
    reveal_strlit("usage");
    reveal_strlit("index");
    reveal_strlit("message");
    reveal_strlit("logprobs");
    reveal_strlit("finish_reason");
    reveal_strlit("delta");
    reveal_strlit("role");
    reveal_strlit("content");
    reveal_strlit("tool_calls");
    reveal_strlit("reasoning_content");
    reveal_strlit("type");
    reveal_strlit("function");
    reveal_strlit("name");
    reveal_strlit("arguments");
}

/// A choice of the whole answer says which it is, what its message is and why it ended.
pub proof fn law_choice_tells_its_message_and_end(v: CompletionView, index: int, f: Ended)
    requires
        0 <= index < v.choices.len(),
        index <= u64::MAX,
        v.choices[index].finish == Some(f),
    ensures
        ({
            let c = v.choice_item(index);
            &&& c.at("index"@) matches Some(n) && n.number() == Some(index as u64)
            &&& c.at("message"@) == Some(v.message(index))
            &&& c.at("finish_reason"@) == Some(
                JsonView::Text(
                    if v.choices[index].calls.len() > 0 {
                        "tool_calls"@
                    } else if f.reason == Reason::Length {
                        "length"@
                    } else {
                        "stop"@
                    },
                ),
            )
        }),
{
    lemma_head_keys();
    let m = v.choice_item(index)->Object_0;
    let c = v.choices[index];
    lemma_found(m, 0, "index"@, number_view(index as nat));
    lemma_found(m, 1, "message"@, v.message(index));
    lemma_found(m, 3, "finish_reason"@, JsonView::Text(finish_text(c.calls.len() as int, f.reason)));
    law_number_is_read_back(index as nat);
}

/// The message of a choice carries all of its text, its reasoning and its calls: what there is of
/// them, and no content only beside calls alone.
pub proof fn law_message_carries_the_choice(v: CompletionView, index: int, k: int)
    requires
        0 <= index < v.choices.len(),
    ensures
        ({
            let c = v.choices[index];
            let m = v.message(index);
            &&& m.at("role"@) == Some(JsonView::Text("assistant"@))
            &&& c.content.len() > 0 || c.calls.len() == 0 ==> m.at("content"@) == Some(
                JsonView::Text(c.content),
            )
            &&& c.content.len() == 0 && c.calls.len() > 0 ==> m.at("content"@) == Some(JsonView::Null)
            &&& c.reasoning.len() > 0 ==> m.at("reasoning_content"@) == Some(JsonView::Text(c.reasoning))
            &&& c.reasoning.len() == 0 ==> m.at("reasoning_content"@) is None
            &&& c.calls.len() == 0 ==> m.at("tool_calls"@) is None
            &&& c.calls.len() > 0 ==> (m.at("tool_calls"@) matches Some(JsonView::Array(a)) && a.len()
                == c.calls.len() && (0 <= k < a.len() ==> a[k] == JsonView::Object(
                call_members(v.head.tail, index, k, c.calls[k]),
            )))
        }),
{
    lemma_head_keys();
    let c = v.choices[index];
    let m = v.message(index)->Object_0;
    let content = if c.content.len() == 0 && c.calls.len() > 0 {
        JsonView::Null
    } else {
        JsonView::Text(c.content)
    };
    lemma_found(m, 0, "role"@, JsonView::Text("assistant"@));
    lemma_found(m, 1, "content"@, content);
    if c.calls.len() > 0 {
        lemma_found(m, 2, "tool_calls"@, JsonView::Array(v.call_items(index)));
    } else {
        law_no_member_is_made_up(v.message(index), "tool_calls"@);
    }
    if c.reasoning.len() > 0 {
        lemma_found(m, m.len() - 1, "reasoning_content"@, JsonView::Text(c.reasoning));
    } else {
        law_no_member_is_made_up(v.message(index), "reasoning_content"@);
    }
}

/// A call is told with the name of its function and the text of its arguments, under an id made of
/// the request, the choice and its number.
pub proof fn law_call_is_told(tail: Seq<char>, index: int, k: int, c: CallText)
    requires
        0 <= k <= u64::MAX,
    ensures
        ({
            let m = JsonView::Object(call_members(tail, index, k, c));
            &&& m.at("id"@) == Some(
                JsonView::Text(
                    "call_"@ + tail + "_"@ + decimal(index as nat) + "_"@ + decimal(k as nat),
                ),
            )
            &&& m.at("type"@) == Some(JsonView::Text("function"@))
            &&& m.at("function"@) matches Some(f) && f.at("name"@) == Some(JsonView::Text(c.name)) && f.at(
                "arguments"@,
            ) == Some(JsonView::Text(c.arguments))
        }),
        call_delta(tail, index, k, c).at("tool_calls"@) matches Some(JsonView::Array(a)) && a.len() == 1
            && a[0].at("id"@) == JsonView::Object(call_members(tail, index, k, c)).at("id"@) && a[0].at(
            "function"@,
        ) == JsonView::Object(call_members(tail, index, k, c)).at("function"@) && (a[0].at("index"@) matches Some(
            n,
        ) && n.number() == Some(k as u64)),
{
    lemma_head_keys();
    let m = call_members(tail, index, k, c);
    let inner = m[2].value->Object_0;
    lemma_found(m, 0, "id"@, m[0].value);
    lemma_found(m, 1, "type"@, m[1].value);
    lemma_found(m, 2, "function"@, m[2].value);
    lemma_found(inner, 0, "name"@, JsonView::Text(c.name));
    lemma_found(inner, 1, "arguments"@, JsonView::Text(c.arguments));
    let more = m.push(entry("index"@, number_view(k as nat)));
    lemma_found(more, 0, "id"@, m[0].value);
    lemma_found(more, 2, "function"@, m[2].value);
    lemma_found(more, 3, "index"@, number_view(k as nat));
    let d = call_delta(tail, index, k, c)->Object_0;
    lemma_found(d, 0, "tool_calls"@, d[0].value);
    law_number_is_read_back(k as nat);
}

/// A chunk of a stream says which request and which choice it belongs to, what it adds, and why the
/// choice ended where it did.
pub proof fn law_chunk_tells_its_choice(h: Head, index: int, delta: JsonView, reason: Option<Seq<char>>)
    requires
        0 <= index <= u64::MAX,
    ensures
        ({
            let c = chunk_view(h, index, delta, reason);
            &&& c.at("id"@) == Some(JsonView::Text("chatcmpl-"@ + h.tail))
            &&& c.at("object"@) == Some(JsonView::Text("chat.completion.chunk"@))
            &&& c.at("created"@) matches Some(n) && n.number() == Some(h.created)
            &&& c.at("model"@) == Some(JsonView::Text(h.model))
            &&& c.at("choices"@) matches Some(JsonView::Array(a)) && a.len() == 1 && a[0].at("delta"@) == Some(
                delta,
            ) && a[0].at("finish_reason"@) == Some(
                match reason {
                    Some(r) => JsonView::Text(r),
                    None => JsonView::Null,
                },
            ) && (a[0].at("index"@) matches Some(n) && n.number() == Some(index as u64))
        }),
{
    lemma_head_keys();
    let m = chunk_view(h, index, delta, reason)->Object_0;
    lemma_found(m, 0, "id"@, JsonView::Text(h.id()));
    lemma_found(m, 1, "object"@, JsonView::Text("chat.completion.chunk"@));
    lemma_found(m, 2, "created"@, number_view(h.created as nat));
    lemma_found(m, 3, "model"@, JsonView::Text(h.model));
    lemma_found(m, 4, "choices"@, m[4].value);
    let item = (m[4].value->Array_0)[0]->Object_0;
    lemma_found(item, 0, "index"@, number_view(index as nat));
    lemma_found(item, 1, "delta"@, delta);
    lemma_found(item, 3, "finish_reason"@, opt_json(reason));
    law_number_is_read_back(h.created as nat);
    law_number_is_read_back(index as nat);
}

/// Every choice of a stream begins with a chunk of its own that tells the assistant's role.
pub proof fn law_every_choice_begins(h: Head, n: int, i: int)
    requires
        0 <= i < n,
    ensures
        beginnings(h, n).len() == n,
        beginnings(h, n)[i] == event_text(chunk_view(h, i, role_delta(), None)),
        role_delta().at("role"@) == Some(JsonView::Text("assistant"@)),
        role_delta().at("content"@) == Some(JsonView::Text(""@)),
    decreases n,
{
    lemma_head_keys();
    lemma_found(role_delta()->Object_0, 0, "role"@, JsonView::Text("assistant"@));
    lemma_found(role_delta()->Object_0, 1, "content"@, JsonView::Text(""@));
    if i < n - 1 {
        law_every_choice_begins(h, n - 1, i);
    } else if n > 1 {
        law_every_choice_begins(h, n - 1, 0);
    } else {
        assert(beginnings(h, 0).len() == 0);
    }
}

/// The end of a choice is recorded with the reason and the numbers that were told, and counted; other
/// choices stay as they were.
pub proof fn law_end_is_recorded<F>(v: CompletionView, index: int, f: Finish<F>, other: int)
    requires
        0 <= index < v.choices.len(),
        v.choices[index].finish is None,
    ensures
        ({
            let a = v.after(index, Event::Done(f)).state;
            &&& a.choices[index].finish matches Some(e) && e.reason == f.reason && e.completion_tokens
                == f.completion_tokens && e.reasoning_tokens == f.reasoning_tokens
            &&& a.done == v.done + 1
            &&& a.choices.len() == v.choices.len()
            &&& 0 <= other < v.choices.len() && other != index ==> a.choices[other] == v.choices[other]
            &&& a.n_prompt == v.n_prompt && a.head == v.head
        }),
{
    let c = v.choices[index];
    let outs = last_outs(c.parser);
    assert(v.choices.update(index, v.step(index, Event::Done(f)).choice)[index] == v.step(
        index,
        Event::Done(f),
    ).choice);
}

/// What is thought goes on as it comes: kept for an answer given at once, sent as a chunk of its own
/// otherwise.
pub proof fn law_thoughts_are_told<F>(v: CompletionView, index: int, e: Event<F>, t: Seq<char>)
    requires
        0 <= index < v.choices.len(),
        v.started || !v.stream,
        e matches Event::Reasoning(s) && s@ == t,
    ensures
        ({
            let a = v.after(index, e);
            &&& !v.stream ==> a.state.choices[index].reasoning == v.choices[index].reasoning + t
            &&& !v.stream ==> a.chunks == Seq::<Seq<char>>::empty()
            &&& v.stream ==> a.chunks == seq![
                event_text(
                    chunk_view(
                        v.head,
                        index,
                        JsonView::Object(seq![entry("reasoning_content"@, JsonView::Text(t))]),
                        None,
                    ),
                ),
            ]
            &&& a.state.choices[index].content == v.choices[index].content
            &&& a.state.done == v.done
        }),
{
    let a = v.after(index, e);
    assert(a.chunks =~= v.step(index, e).chunks);
}

/// Text that the stream gives out goes on in order: kept for an answer given at once, sent in chunks
/// otherwise; a call is kept either way, with its arguments as JSON, and numbered.
pub proof fn law_pieces_go_on_in_order(
    h: Head,
    index: int,
    stream: bool,
    c: ChoiceView,
    outs: Seq<OutView>,
    o: OutView,
)
    ensures
        ({
            let n = outs.len() as int;
            let s = forwarded(h, index, stream, c, outs, n);
            let t = forwarded(h, index, stream, c, outs.push(o), n + 1);
            match o {
                OutView::Text(x) => {
                    &&& !stream ==> t.choice.content == s.choice.content + x && t.chunks == s.chunks
                    &&& stream ==> t.choice.content == s.choice.content && t.chunks == s.chunks.push(
                        event_text(
                            chunk_view(
                                h,
                                index,
                                JsonView::Object(seq![entry("content"@, JsonView::Text(x))]),
                                None,
                            ),
                        ),
                    )
                    &&& t.choice.calls == s.choice.calls
                },
                OutView::Call(x) => {
                    let call = CallText { name: x.name, arguments: compact(JsonView::Object(x.arguments)) };
                    &&& t.choice.calls == s.choice.calls.push(call)
                    &&& t.choice.content == s.choice.content
                    &&& !stream ==> t.chunks == s.chunks
                    &&& stream ==> t.chunks == s.chunks.push(
                        event_text(
                            chunk_view(
                                h,
                                index,
                                call_delta(h.tail, index, s.choice.calls.len() as int, call),
                                None,
                            ),
                        ),
                    )
                },
            }
        }),
{
    lemma_forwarded_of_more(h, index, stream, c, outs, o, outs.len() as int);
    assert(outs.push(o)[outs.len() as int] == o);
}

proof fn lemma_forwarded_of_more(
    h: Head,
    index: int,
    stream: bool,
    c: ChoiceView,
    outs: Seq<OutView>,
    o: OutView,
    n: int,
)
    requires
        n <= outs.len(),
    ensures
        forwarded(h, index, stream, c, outs.push(o), n) == forwarded(h, index, stream, c, outs, n),
    decreases n,
{
    if n > 0 {
        lemma_forwarded_of_more(h, index, stream, c, outs, o, n - 1);
        assert(outs.push(o)[n - 1] == outs[n - 1]);
    }
}

/// An event is a line `data: ` with the value and an empty line behind it; the last event of a stream
/// says that it is done.
pub proof fn law_form_of_an_event(v: JsonView)
    ensures
        event_text(v) == "data: "@ + compact(v) + seq!['\n', '\n'],
        DONE@ == "data: "@ + "[DONE]"@ + seq!['\n', '\n'],
{
    reveal_strlit("\n\n");
    reveal_strlit("data: ");
    reveal_strlit("[DONE]");
    reveal_strlit("data: [DONE]\n\n");
    assert("\n\n"@ =~= seq!['\n', '\n']);
    assert(DONE@ =~= "data: "@ + "[DONE]"@ + seq!['\n', '\n']);
}

/// The count of a request is written with four digits or more.
pub proof fn law_counts_have_four_digits(n: nat) -> (zeros: nat)
    ensures
        four_digits(n).len() >= 4 || n >= 0x1000,
        zeros <= 3,
        four_digits(n).len() == zeros + hexadecimal(n).len(),
        four_digits(n).subrange(zeros as int, four_digits(n).len() as int) == hexadecimal(n),
        forall|i: int| 0 <= i < zeros ==> four_digits(n)[i] == '0',
        n < 0x1000 <==> zeros > 0,
{
    reveal_strlit("000");
    reveal_strlit("00");
    reveal_strlit("0");
    reveal_with_fuel(hexadecimal, 5);
    let z: nat = if n < 0x10 {
        3
    } else if n < 0x100 {
        2
    } else if n < 0x1000 {
        1
    } else {
        0
    };
    assert(four_digits(n).subrange(z as int, four_digits(n).len() as int) =~= hexadecimal(n));
    z
}

} // verus!
