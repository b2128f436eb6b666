//! The OpenAI-compatible interface: which request goes where, what a chat-completions request
//! asks for, and the JSON that answers it.
use crate::chat::{debug_quoted, prompt_of, thinking_mode, PromptView};
use crate::chat::{debug_text, render_prompt_spans, resolve_thinking, ChatRequest, Rendered, Stop, Thinking};
use crate::chat::{bad_effort, effort_message, efforts, messages_view};
use crate::engine::{continuous_pages, Sampling};
use crate::engine::{countable, reserved_pages};
use crate::images::begins_with;
use crate::json::{entry, items_view, law_number_is_read_back, lemma_found, members_view, number_view};
use crate::json::{array_of, compact, no_members, number, object, object_of, push_entry, text_value, to_compact};
use crate::json::{Json, JsonView};
use crate::key::push_bytes;
use crate::order::{is_nan, key_of_bits, order_key};
use crate::text::{chars_eq, copy_range, decimal, from_chars, matches_at, owned, push_decimal, push_text};
use crate::text::{found_at, str_eq, texts, to_chars, trim, trimmed};
use crate::tools::{tool_of, tools_view, ToolSpec, ToolView};
use vstd::prelude::*;
use vstd::utf8::encode_utf8;

verus! {

/// The most stop strings of a request.
pub const MAX_STOPS: usize = 16;

// ---- errors ---------------------------------------------------------------------------------

pub open spec fn error_type(status: u16) -> Seq<char> {
    if status == 401 {
        "authentication_error"@
    } else if status == 404 {
        "not_found_error"@
    } else if status == 400 {
        "invalid_request_error"@
    } else {
        "server_error"@
    }
}

/// The body of an error.
pub open spec fn error_view(status: u16, msg: Seq<char>) -> JsonView {
    JsonView::Object(
        seq![
            entry(
                "error"@,
                JsonView::Object(
                    seq![
                        entry("message"@, JsonView::Text(msg)),
                        entry("type"@, JsonView::Text(error_type(status))),
                        entry("param"@, JsonView::Null),
                        entry("code"@, JsonView::Null),
                    ],
                ),
            ),
        ],
    )
}

/// The text of an error's body.
pub fn error_text(status: u16, msg: &str) -> (s: String)
    ensures
        s@ == compact(error_view(status, msg@)),
{
    let ty: &str = match status {
        401 => "authentication_error",
        404 => "not_found_error",
        400 => "invalid_request_error",
        _ => "server_error",
    };
    let mut e: Vec<(String, Json)> = no_members();
    push_entry(&mut e, "message", text_value(msg));
    push_entry(&mut e, "type", text_value(ty));
    push_entry(&mut e, "param", Json::Null);
    push_entry(&mut e, "code", Json::Null);
    assert(members_view(e@) =~= seq![
        entry("message"@, JsonView::Text(msg@)),
        entry("type"@, JsonView::Text(error_type(status))),
        entry("param"@, JsonView::Null),
        entry("code"@, JsonView::Null),
    ]);
    let j: Json = object_of("error", object(e));
    to_compact(&j)
}

/// The status and the body of an error.
pub fn error_json(status: u16, msg: &str) -> (r: (u16, Vec<u8>))
    ensures
        r.0 == status,
        r.1@ == encode_utf8(compact(error_view(status, msg@))),
{
    let s: String = error_text(status, msg);
    let mut v: Vec<u8> = Vec::new();
    push_bytes(&mut v, s.as_str().as_bytes());
    assert(v@ =~= encode_utf8(s@));
    (status, v)
}

// ---- routes ---------------------------------------------------------------------------------

/// What a request is for.
pub enum Route {
    /// A browser asks what it may do.
    Preflight,
    Health,
    /// The API key is missing or wrong.
    Denied,
    Models,
    /// The model that is served.
    Model,
    /// Another model, by its name.
    NoModel(String),
    Chat,
    NoRoute,
}

#[verifier::ext_equal]
pub enum RouteView {
    Preflight,
    Health,
    Denied,
    Models,
    Model,
    NoModel(Seq<char>),
    Chat,
    NoRoute,
}

impl View for Route {
    type V = RouteView;

    open spec fn view(&self) -> RouteView {
        match self {
            Route::Preflight => RouteView::Preflight,
            Route::Health => RouteView::Health,
            Route::Denied => RouteView::Denied,
            Route::Models => RouteView::Models,
            Route::Model => RouteView::Model,
            Route::NoModel(s) => RouteView::NoModel(s@),
            Route::Chat => RouteView::Chat,
            Route::NoRoute => RouteView::NoRoute,
        }
    }
}

/// A path without slashes at its end.
pub open spec fn without_slashes(s: Seq<char>) -> Seq<char>
    decreases s.len(),
{
    if s.len() > 0 && s.last() == '/' { without_slashes(s.drop_last()) } else { s }
}

pub open spec fn opt_view(s: Option<&str>) -> Option<Seq<char>> {
    match s {
        Some(s) => Some(s@),
        None => None,
    }
}

/// Without a configured key everybody may; else the header has to carry that key as its bearer
/// token.
pub open spec fn allowed(auth: Option<Seq<char>>, key: Option<Seq<char>>) -> bool {
    match key {
        None => true,
        Some(k) => match auth {
            None => false,
            Some(v) => begins_with(v, "Bearer "@) && trim(v.skip("Bearer "@.len() as int)) == k,
        },
    }
}

pub open spec fn routed(
    method: Seq<char>,
    path: Seq<char>,
    auth: Option<Seq<char>>,
    key: Option<Seq<char>>,
    model: Seq<char>,
) -> RouteView {
    let p = without_slashes(path);
    if method == "OPTIONS"@ {
        RouteView::Preflight
    } else if p == "/health"@ || p.len() == 0 {
        RouteView::Health
    } else if !allowed(auth, key) {
        RouteView::Denied
    } else if method == "GET"@ && p == "/v1/models"@ {
        RouteView::Models
    } else if method == "GET"@ && begins_with(p, "/v1/models/"@) {
        let id = p.skip("/v1/models/"@.len() as int);
        if id == model { RouteView::Model } else { RouteView::NoModel(id) }
    } else if method == "POST"@ && p == "/v1/chat/completions"@ {
        RouteView::Chat
    } else {
        RouteView::NoRoute
    }
}

/// Whether a request may use what is behind the key.
pub fn authorized(auth: Option<&str>, key: Option<&str>) -> (r: bool)
    ensures
        r == allowed(opt_view(auth), opt_view(key)),
{
    match key {
        None => true,
        Some(k) => match auth {
            None => false,
            Some(v) => {
                let c: Vec<char> = to_chars(v);
                let head: Vec<char> = to_chars("Bearer ");
                if !matches_at(c.as_slice(), head.as_slice(), 0) {
                    return false;
                }
                let rest: Vec<char> = copy_range(c.as_slice(), head.len(), c.len());
                assert(rest@ =~= v@.skip("Bearer "@.len() as int));
                chars_eq(trimmed(rest.as_slice()).as_slice(), to_chars(k).as_slice())
            },
        },
    }
}

/// Where a request goes.
pub fn route(method: &str, path: &str, auth: Option<&str>, key: Option<&str>, model: &str) -> (r: Route)
    ensures
        r@ == routed(method@, path@, opt_view(auth), opt_view(key), model@),
{
    let c: Vec<char> = to_chars(path);
    let mut n: usize = c.len();
    assert(c@.take(n as int) =~= path@);
    while n > 0 && c[n - 1] == '/'
        invariant
            n <= c@.len(),
            without_slashes(c@.take(n as int)) == without_slashes(path@),
        decreases n,
    {
        assert(c@.take(n as int).drop_last() =~= c@.take(n - 1));
        n = n - 1;
    }
    let p: Vec<char> = copy_range(c.as_slice(), 0, n);
    assert(p@ =~= without_slashes(path@));
    let head: Vec<char> = to_chars("/v1/models/");
    if str_eq(method, "OPTIONS") {
        Route::Preflight
    } else if n == 0 || chars_eq(p.as_slice(), to_chars("/health").as_slice()) {
        Route::Health
    } else if !authorized(auth, key) {
        Route::Denied
    } else if str_eq(method, "GET") && chars_eq(p.as_slice(), to_chars("/v1/models").as_slice()) {
        Route::Models
    } else if str_eq(method, "GET") && matches_at(p.as_slice(), head.as_slice(), 0) {
        let id: Vec<char> = copy_range(p.as_slice(), head.len(), n);
        assert(id@ =~= p@.skip("/v1/models/"@.len() as int));
        if chars_eq(id.as_slice(), to_chars(model).as_slice()) {
            Route::Model
        } else {
            Route::NoModel(from_chars(id.as_slice()))
        }
    } else if str_eq(method, "POST") && chars_eq(
        p.as_slice(),
        to_chars("/v1/chat/completions").as_slice(),
    ) {
        Route::Chat
    } else {
        Route::NoRoute
    }
}

pub const DENIED: &'static str = "invalid or missing API key (Authorization: Bearer ...)";

/// The message for a model that is not served.
pub fn no_model_message(id: &str) -> (s: String)
    ensures
        s@ == "model "@ + debug_quoted(id@) + " not found"@,
{
    let mut s: String = owned("model ");
    push_text(&mut s, debug_text(id).as_str());
    push_text(&mut s, " not found");
    s
}

/// The message for a path that leads nowhere.
pub fn no_route_message(method: &str, path: &str) -> (s: String)
    ensures
        s@ == "no route for "@ + method@ + " "@ + path@,
{
    let mut s: String = owned("no route for ");
    push_text(&mut s, method);
    push_text(&mut s, " ");
    push_text(&mut s, path);
    s
}

/// The model as the API lists it.
pub open spec fn model_view(id: Seq<char>, created: u64) -> JsonView {
    JsonView::Object(
        seq![
            entry("id"@, JsonView::Text(id)),
            entry("object"@, JsonView::Text("model"@)),
            entry("created"@, number_view(created as nat)),
            entry("owned_by"@, JsonView::Text("tr-infer"@)),
        ],
    )
}

fn model_object(id: &str, created: u64) -> (j: Json)
    ensures
        j@ == model_view(id@, created),
{
    let mut m: Vec<(String, Json)> = no_members();
    push_entry(&mut m, "id", text_value(id));
    push_entry(&mut m, "object", text_value("model"));
    push_entry(&mut m, "created", number(created));
    push_entry(&mut m, "owned_by", text_value("tr-infer"));
    assert(members_view(m@) =~= seq![
        entry("id"@, JsonView::Text(id@)),
        entry("object"@, JsonView::Text("model"@)),
        entry("created"@, number_view(created as nat)),
        entry("owned_by"@, JsonView::Text("tr-infer"@)),
    ]);
    object(m)
}

/// The answer to a request for the model.
pub fn model_body(id: &str, created: u64) -> (s: String)
    ensures
        s@ == compact(model_view(id@, created)),
{
    let j: Json = model_object(id, created);
    to_compact(&j)
}

/// The answer to a request for all models.
pub fn models_body(id: &str, created: u64) -> (s: String)
    ensures
        s@ == compact(
            JsonView::Object(
                seq![
                    entry("object"@, JsonView::Text("list"@)),
                    entry("data"@, JsonView::Array(seq![model_view(id@, created)])),
                ],
            ),
        ),
{
    let mut m: Vec<(String, Json)> = no_members();
    push_entry(&mut m, "object", text_value("list"));
    push_entry(&mut m, "data", array_of(model_object(id, created)));
    assert(members_view(m@) =~= seq![
        entry("object"@, JsonView::Text("list"@)),
        entry("data"@, JsonView::Array(seq![model_view(id@, created)])),
    ]);
    let j: Json = object(m);
    to_compact(&j)
}

/// What the scheduler counts, for the health report.
#[derive(Clone, Copy, Debug, PartialEq, Eq, Structural)]
pub struct SchedulerCounts {
    pub queued: u64,
    pub active: u64,
    pub idle_pages: u64,
    pub page_capacity: u64,
    pub free_pages: u64,
    pub iterations: u64,
    pub decode_rows: u64,
    pub prefill_rows: u64,
    pub max_batch_sequences: u64,
}

pub open spec fn counts_view(c: SchedulerCounts) -> JsonView {
    JsonView::Object(
        seq![
            entry("queued_requests"@, number_view(c.queued as nat)),
            entry("active_sequences"@, number_view(c.active as nat)),
            entry("idle_pages"@, number_view(c.idle_pages as nat)),
            entry("kv_total_pages"@, number_view(c.page_capacity as nat)),
            entry("kv_free_pages"@, number_view(c.free_pages as nat)),
            entry("iterations"@, number_view(c.iterations as nat)),
            entry("decode_rows"@, number_view(c.decode_rows as nat)),
            entry("prefill_rows"@, number_view(c.prefill_rows as nat)),
            entry("max_batch_sequences"@, number_view(c.max_batch_sequences as nat)),
        ],
    )
}

/// The health report.
pub fn health_body(model: &str, uptime: u64, c: SchedulerCounts) -> (s: String)
    ensures
        s@ == compact(
            JsonView::Object(
                seq![
                    entry("status"@, JsonView::Text("ok"@)),
                    entry("model"@, JsonView::Text(model@)),
                    entry("uptime_s"@, number_view(uptime as nat)),
                    entry("scheduler"@, counts_view(c)),
                ],
            ),
        ),
{
    let mut k: Vec<(String, Json)> = no_members();
    push_entry(&mut k, "queued_requests", number(c.queued));
    push_entry(&mut k, "active_sequences", number(c.active));
    push_entry(&mut k, "idle_pages", number(c.idle_pages));
    push_entry(&mut k, "kv_total_pages", number(c.page_capacity));
    push_entry(&mut k, "kv_free_pages", number(c.free_pages));
    push_entry(&mut k, "iterations", number(c.iterations));
    push_entry(&mut k, "decode_rows", number(c.decode_rows));
    push_entry(&mut k, "prefill_rows", number(c.prefill_rows));
    push_entry(&mut k, "max_batch_sequences", number(c.max_batch_sequences));
    assert(members_view(k@) =~= counts_view(c)->Object_0);
    let mut m: Vec<(String, Json)> = no_members();
    push_entry(&mut m, "status", text_value("ok"));
    push_entry(&mut m, "model", text_value(model));
    push_entry(&mut m, "uptime_s", number(uptime));
    push_entry(&mut m, "scheduler", object(k));
    assert(members_view(m@) =~= seq![
        entry("status"@, JsonView::Text("ok"@)),
        entry("model"@, JsonView::Text(model@)),
        entry("uptime_s"@, number_view(uptime as nat)),
        entry("scheduler"@, counts_view(c)),
    ]);
    let j: Json = object(m);
    to_compact(&j)
}

// ---- what a request asks for ----------------------------------------------------------------

/// The tools that a request offers the model: those it lists, unless it rules out calls; one that
/// wants to force a call is refused.
pub open spec fn offered<F>(r: ChatRequest<F>) -> Option<Seq<JsonView>> {
    let choice = match r.tool_choice {
        None => "auto"@,
        Some(c) => match c@.text() {
            Some(s) => s,
            None => "named"@,
        },
    };
    if choice == "none"@ {
        Some(Seq::empty())
    } else if choice == "auto"@ {
        match r.tools {
            Some(t) => Some(items_view(t@)),
            None => Some(Seq::empty()),
        }
    } else {
        None
    }
}

/// How many choices a request wants.
pub open spec fn choices_of<F>(r: ChatRequest<F>) -> usize {
    match r.n {
        Some(n) => n,
        None => 1,
    }
}

pub const FORCED_TOOL: &'static str = "tool_choice must be \"auto\" or \"none\" (the model decides; forcing a call is not supported)";

pub const UNNAMED_TOOL: &'static str = "each tool needs function.name";

/// The first of the tools from `i` on that has no name.
pub open spec fn unnamed(tools: Seq<JsonView>, i: int) -> bool
    decreases tools.len() - i,
{
    0 <= i < tools.len() && (tool_of(tools[i]) is None || unnamed(tools, i + 1))
}

/// The first `n` tools by name and parameter types.
pub open spec fn specs_of(tools: Seq<JsonView>, n: int) -> Seq<ToolView>
    decreases n,
{
    if n <= 0 { Seq::empty() } else { specs_of(tools, n - 1).push(tool_of(tools[n - 1])->0) }
}

/// A request that can be answered: the prompt, and the tools that calls in the answer are read by.
pub struct Asked {
    pub rendered: Rendered,
    pub mode: Thinking,
    pub specs: Vec<ToolSpec>,
    pub n: usize,
}

/// Why a request cannot be answered, as far as it alone decides; none where it can be.
pub open spec fn complaint<F>(r: ChatRequest<F>, default: Thinking, max_choices: usize) -> Option<
    Seq<char>,
> {
    let n = choices_of(r);
    if !(1 <= n <= max_choices) {
        Some(
            "n must be 1.."@ + decimal(max_choices as nat)
                + " (enable continuous batching for multiple choices)"@,
        )
    } else {
        match offered(r) {
            None => Some(FORCED_TOOL@),
            Some(tools) => if unnamed(tools, 0) {
                Some(UNNAMED_TOOL@)
            } else {
                let e = efforts(r);
                if bad_effort(e[0]) {
                    Some(effort_message(e[0]->0))
                } else if bad_effort(e[1]) {
                    Some(effort_message(e[1]->0))
                } else if bad_effort(e[2]) {
                    Some(effort_message(e[2]->0))
                } else {
                    match prompt_of(messages_view(r.messages@), thinking_mode(r, default), tools) {
                        Err(m) => Some(m),
                        Ok(_) => None,
                    }
                }
            },
        }
    }
}

/// What a request asks for: its choices, its tools, its thinking mode and its prompt.
pub fn read_request<F>(r: &ChatRequest<F>, default: Thinking, max_choices: usize) -> (out: Result<
    Asked,
    String,
>)
    ensures
        match complaint(*r, default, max_choices) {
            Some(m) => out matches Err(e) && e@ == m,
            None => out matches Ok(a) && a.n == choices_of(*r) && a.mode == thinking_mode(*r, default)
                && tools_view(a.specs@) == specs_of(offered(*r)->0, offered(*r)->0.len() as int)
                && prompt_of(messages_view(r.messages@), a.mode, offered(*r)->0) == Ok::<
                PromptView,
                Seq<char>,
            >(a.rendered.view()) && a.rendered.thinking_open == (a.mode != Thinking::Off),
        },
{
    let n: usize = match r.n {
        Some(n) => n,
        None => 1,
    };
    if n < 1 || n > max_choices {
        let mut e: String = owned("n must be 1..");
        push_decimal(&mut e, max_choices as u64);
        push_text(&mut e, " (enable continuous batching for multiple choices)");
        return Err(e);
    }
    let none: Vec<Json> = Vec::new();
    assert(items_view(none@) =~= Seq::<JsonView>::empty());
    let tools: &Vec<Json> = {
        let auto: bool = match &r.tool_choice {
            None => true,
            Some(c) => match c.as_str() {
                Some(s) => {
                    if str_eq(s, "none") {
                        false
                    } else if str_eq(s, "auto") {
                        true
                    } else {
                        return Err(owned(FORCED_TOOL));
                    }
                },
                None => {
                    proof {
                        reveal_strlit("named");
                        reveal_strlit("auto");
                        reveal_strlit("none");
                        assert("named"@.len() == 5 && "auto"@.len() == 4 && "none"@.len() == 4);
                    }
                    return Err(owned(FORCED_TOOL));
                },
            },
        };
        proof {
            reveal_strlit("auto");
            reveal_strlit("none");
            assert("auto"@[0] != "none"@[0]);
        }
        if auto {
            match &r.tools {
                Some(t) => t,
                None => &none,
            }
        } else {
            &none
        }
    };
    let ghost views = items_view(tools@);
    assert(offered(*r) == Some(views));
    let mut specs: Vec<ToolSpec> = Vec::new();
    let m: usize = tools.len();
    let mut i: usize = 0;
    assert(tools_view(specs@) =~= Seq::<ToolView>::empty());
    while i < m
        invariant
            i <= m,
            m == tools@.len(),
            views == items_view(tools@),
            offered(*r) == Some(views),
            1 <= n <= max_choices,
            n == choices_of(*r),
            unnamed(views, 0) == unnamed(views, i as int),
            tools_view(specs@) == specs_of(views, i as int),
        decreases m - i,
    {
        assert(views[i as int] == tools@[i as int]@);
        match ToolSpec::from_value(&tools[i]) {
            Some(s) => {
                let ghost before = specs@;
                specs.push(s);
                assert(tools_view(specs@) =~= tools_view(before).push(s@));
            },
            None => {
                return Err(owned(UNNAMED_TOOL));
            },
        }
        i = i + 1;
    }
    let mode: Thinking = match resolve_thinking(r, default) {
        Ok(m) => m,
        Err(e) => {
            return Err(e);
        },
    };
    match render_prompt_spans(&r.messages, mode, tools) {
        Ok(rendered) => Ok(Asked { rendered, mode, specs, n }),
        Err(e) => Err(e),
    }
}

pub const POOL_EXCEEDED: &'static str = "request exceeds the KV pool capacity; reduce n, prompt length, or max_tokens";

/// How many tokens may be generated behind a prompt of `len`: what the request wants, as far as
/// the context window has room, and at least one.
pub open spec fn room_for(len: int, ctx: int, wanted: Option<usize>) -> int {
    let room = ctx - len;
    let w = match wanted {
        Some(w) => if w < room { w as int } else { room },
        None => room,
    };
    if w < 1 { 1 } else { w }
}

pub open spec fn wanted_tokens<F>(r: ChatRequest<F>) -> Option<usize> {
    match r.max_completion_tokens {
        Some(n) => Some(n),
        None => r.max_tokens,
    }
}

/// The number of tokens to generate behind a prompt of `len` tokens: refused where the prompt does
/// not fit the context window, or (with a pool of pages) the request does not fit the pool.
pub fn token_budget<F>(r: &ChatRequest<F>, len: usize, ctx: usize, pages: usize) -> (out: Result<
    usize,
    String,
>)
    ensures
        ({
            let t = room_for(len as int, ctx as int, wanted_tokens(*r));
            let n = choices_of(*r);
            if len >= ctx {
                out matches Err(e) && e@ == "prompt is "@ + decimal(len as nat)
                    + " tokens, the context window is "@ + decimal(ctx as nat) + " tokens"@
            } else if pages > 0 && (!countable(len as int, t, n as int) || reserved_pages(
                len as int,
                t,
                n as int,
            ) > pages) {
                out matches Err(e) && e@ == POOL_EXCEEDED@
            } else {
                out == Ok::<usize, String>(t as usize)
            }
        }),
{
    if len >= ctx {
        let mut e: String = owned("prompt is ");
        push_decimal(&mut e, len as u64);
        push_text(&mut e, " tokens, the context window is ");
        push_decimal(&mut e, ctx as u64);
        push_text(&mut e, " tokens");
        return Err(e);
    }
    let room: usize = ctx - len;
    let wanted: Option<usize> = match r.max_completion_tokens {
        Some(n) => Some(n),
        None => r.max_tokens,
    };
    let t: usize = match wanted {
        Some(w) => if w < room { w } else { room },
        None => room,
    };
    let t: usize = if t < 1 { 1 } else { t };
    if pages > 0 {
        let n: usize = match r.n {
            Some(n) => n,
            None => 1,
        };
        match continuous_pages(len, t, n) {
            Some(p) => {
                if p > pages {
                    return Err(owned(POOL_EXCEEDED));
                }
            },
            None => {
                return Err(owned(POOL_EXCEEDED));
            },
        }
    }
    Ok(t)
}

/// The server's own sampling, for what a request does not say; inside the `<think>` block only
/// where something is set.
#[derive(Clone, Copy)]
pub struct SamplingDefaults<F> {
    pub temp: F,
    pub top_p: F,
    pub top_k: usize,
    pub think_temp: Option<F>,
    pub think_top_p: Option<F>,
    pub think_top_k: Option<usize>,
}

/// The first of two that is set.
pub open spec fn or<T>(a: Option<T>, b: Option<T>) -> Option<T> {
    match a {
        Some(x) => Some(x),
        None => b,
    }
}

/// What is set, or what holds otherwise.
pub open spec fn or_else<T>(a: Option<T>, b: T) -> T {
    match a {
        Some(x) => x,
        None => b,
    }
}

/// The sampling of the answer.
pub open spec fn answer_sampling<F>(r: ChatRequest<F>, d: SamplingDefaults<F>) -> Sampling<F> {
    Sampling {
        temp: or_else(r.temperature, d.temp),
        top_k: or_else(r.top_k, d.top_k),
        top_p: or_else(r.top_p, d.top_p),
    }
}

pub open spec fn think_temp<F>(r: ChatRequest<F>, d: SamplingDefaults<F>) -> Option<F> {
    let nested = match r.reasoning {
        Some(p) => p.temperature,
        None => None,
    };
    or(or(r.reasoning_temperature, nested), d.think_temp)
}

pub open spec fn think_top_p<F>(r: ChatRequest<F>, d: SamplingDefaults<F>) -> Option<F> {
    let nested = match r.reasoning {
        Some(p) => p.top_p,
        None => None,
    };
    or(or(r.reasoning_top_p, nested), d.think_top_p)
}

pub open spec fn think_top_k<F>(r: ChatRequest<F>, d: SamplingDefaults<F>) -> Option<usize> {
    let nested = match r.reasoning {
        Some(p) => p.top_k,
        None => None,
    };
    or(or(r.reasoning_top_k, nested), d.think_top_k)
}

/// The sampling inside the `<think>` block: the request's own (flat or nested) before the
/// server's, and the answer's for what neither sets; none where nothing is set or nothing is
/// thought.
pub open spec fn think_sampling<F>(r: ChatRequest<F>, d: SamplingDefaults<F>, mode: Thinking) -> Option<
    Sampling<F>,
> {
    let a = answer_sampling(r, d);
    let t = think_temp(r, d);
    let p = think_top_p(r, d);
    let k = think_top_k(r, d);
    if mode != Thinking::Off && (t is Some || p is Some || k is Some) {
        Some(Sampling { temp: or_else(t, a.temp), top_k: or_else(k, a.top_k), top_p: or_else(p, a.top_p) })
    } else {
        None
    }
}

fn pick<T: Copy>(a: Option<T>, b: Option<T>, c: Option<T>) -> (r: Option<T>)
    ensures
        r == or(or(a, b), c),
{
    match a {
        Some(x) => Some(x),
        None => match b {
            Some(x) => Some(x),
            None => c,
        },
    }
}

fn value_or<T: Copy>(a: Option<T>, b: T) -> (r: T)
    ensures
        r == or_else(a, b),
{
    match a {
        Some(x) => x,
        None => b,
    }
}

/// The key of the number one.
pub const ONE: i64 = 0x3f80_0000;

/// The key of the number two.
pub const TWO: i64 = 0x4000_0000;

/// Why sampling settings, given by their bits, are refused: the temperature lies between 0 and 2,
/// `top_p` above 0 and at most at 1.
pub open spec fn sampling_refusal(temp: u32, top_p: u32) -> Option<Seq<char>> {
    if is_nan(temp) || !(0 <= key_of_bits(temp) <= TWO) {
        Some("temperature must be between 0 and 2"@)
    } else if is_nan(top_p) || !(0 < key_of_bits(top_p) <= ONE) {
        Some("top_p must be in (0, 1]"@)
    } else {
        None
    }
}

/// Check sampling settings, given by the bits of single-precision numbers.
pub fn check_sampling(temp: u32, top_p: u32) -> (r: Result<(), String>)
    ensures
        match sampling_refusal(temp, top_p) {
            Some(m) => r matches Err(e) && e@ == m,
            None => r is Ok,
        },
{
    let warm: bool = match order_key(temp) {
        Some(k) => 0 <= k && k <= TWO,
        None => false,
    };
    if !warm {
        return Err(owned("temperature must be between 0 and 2"));
    }
    let wide: bool = match order_key(top_p) {
        Some(k) => 0 < k && k <= ONE,
        None => false,
    };
    if wide { Ok(()) } else { Err(owned("top_p must be in (0, 1]")) }
}

/// The sampling of the answer, and the one inside the `<think>` block where it differs.
pub fn choose_sampling<F: Copy>(r: &ChatRequest<F>, d: SamplingDefaults<F>, mode: Thinking) -> (out: (
    Sampling<F>,
    Option<Sampling<F>>,
))
    ensures
        out.0 == answer_sampling(*r, d),
        out.1 == think_sampling(*r, d, mode),
        r.temperature matches Some(t) ==> out.0.temp == t,
        r.temperature is None ==> out.0.temp == d.temp,
        r.top_p matches Some(p) ==> out.0.top_p == p,
        r.top_p is None ==> out.0.top_p == d.top_p,
        r.top_k matches Some(k) ==> out.0.top_k == k,
        r.top_k is None ==> out.0.top_k == d.top_k,
{
    proof {
        law_request_sets_the_sampling(*r, d);
    }
    let a: Sampling<F> = Sampling {
        temp: value_or(r.temperature, d.temp),
        top_k: value_or(r.top_k, d.top_k),
        top_p: value_or(r.top_p, d.top_p),
    };
    let (nt, np, nk) = match &r.reasoning {
        Some(p) => (p.temperature, p.top_p, p.top_k),
        None => (None, None, None),
    };
    let t: Option<F> = pick(r.reasoning_temperature, nt, d.think_temp);
    let p: Option<F> = pick(r.reasoning_top_p, np, d.think_top_p);
    let k: Option<usize> = pick(r.reasoning_top_k, nk, d.think_top_k);
    if mode != Thinking::Off && (t.is_some() || p.is_some() || k.is_some()) {
        (
            a,
            Some(
                Sampling {
                    temp: value_or(t, a.temp),
                    top_k: value_or(k, a.top_k),
                    top_p: value_or(p, a.top_p),
                },
            ),
        )
    } else {
        (a, None)
    }
}

/// The stop strings as the request gives them.
pub open spec fn given_stops(s: Option<Stop>) -> Seq<Seq<char>> {
    match s {
        None => Seq::empty(),
        Some(Stop::One(x)) => seq![x@],
        Some(Stop::Many(v)) => texts(v@),
    }
}

/// Of the first `n` texts, those that are not empty.
pub open spec fn not_empty(v: Seq<Seq<char>>, n: int) -> Seq<Seq<char>>
    decreases n,
{
    if n <= 0 {
        Seq::empty()
    } else if v[n - 1].len() > 0 {
        not_empty(v, n - 1).push(v[n - 1])
    } else {
        not_empty(v, n - 1)
    }
}

pub const TOO_MANY_STOPS: &'static str = "at most 16 stop sequences";

/// The stop strings of a request, without empty ones; too many are refused.
pub fn stop_strings(s: &Option<Stop>) -> (out: Result<Vec<String>, String>)
    ensures
        ({
            let all = given_stops(*s);
            let v = not_empty(all, all.len() as int);
            if v.len() > MAX_STOPS {
                out matches Err(e) && e@ == TOO_MANY_STOPS@
            } else {
                out matches Ok(l) && texts(l@) == v
            }
        }),
{
    let mut out: Vec<String> = Vec::new();
    let ghost all = given_stops(*s);
    assert(texts(out@) =~= Seq::<Seq<char>>::empty());
    match s {
        None => {},
        Some(Stop::One(x)) => {
            reveal_with_fuel(not_empty, 2);
            if !x.as_str().is_empty() {
                out.push(owned(x.as_str()));
            }
            assert(texts(out@) =~= not_empty(all, 1));
        },
        Some(Stop::Many(v)) => {
            let n: usize = v.len();
            let mut i: usize = 0;
            while i < n
                invariant
                    i <= n,
                    n == v@.len(),
                    all == texts(v@),
                    texts(out@) == not_empty(all, i as int),
                decreases n - i,
            {
                assert(all[i as int] == v@[i as int]@);
                if !v[i].as_str().is_empty() {
                    let ghost before = out@;
                    out.push(owned(v[i].as_str()));
                    assert(texts(out@) =~= texts(before).push(v@[i as int]@));
                }
                i = i + 1;
            }
        },
    }
    assert(texts(out@).len() == out@.len());
    if out.len() > MAX_STOPS {
        return Err(owned(TOO_MANY_STOPS));
    }
    Ok(out)
}

/// Behind a configured key, a request without it reaches nothing but the health report and the
/// answer to a browser's question.
pub proof fn law_key_guards_the_api(
    method: Seq<char>,
    path: Seq<char>,
    auth: Option<Seq<char>>,
    key: Seq<char>,
    model: Seq<char>,
)
    requires
        !allowed(auth, Some(key)),
    ensures
        ({
            let r = routed(method, path, auth, Some(key), model);
            r is Preflight || r is Health || r is Denied
        }),
{
}

/// No stop string that reaches the engine is empty.
pub proof fn law_stop_strings_are_not_empty(v: Seq<Seq<char>>, n: int, i: int)
    requires
        0 <= n <= v.len(),
        0 <= i < not_empty(v, n).len(),
    ensures
        not_empty(v, n)[i].len() > 0,
    decreases n,
{
    if n > 0 && i < not_empty(v, n - 1).len() {
        law_stop_strings_are_not_empty(v, n - 1, i);
    }
}

/// What a request says of the sampling of its answer holds, and what it does not say is as the server
/// has it.
pub proof fn law_request_sets_the_sampling<F>(r: ChatRequest<F>, d: SamplingDefaults<F>)
    ensures
        ({
            let a = answer_sampling(r, d);
            &&& r.temperature matches Some(t) ==> a.temp == t
            &&& r.temperature is None ==> a.temp == d.temp
            &&& r.top_p matches Some(p) ==> a.top_p == p
            &&& r.top_p is None ==> a.top_p == d.top_p
            &&& r.top_k matches Some(k) ==> a.top_k == k
            &&& r.top_k is None ==> a.top_k == d.top_k
        }),
{
}

/// Inside the think block the request's own setting holds before the nested one, that before the
/// server's, and the answer's where none is given: the temperature.
pub proof fn law_think_temperature<F>(r: ChatRequest<F>, d: SamplingDefaults<F>, mode: Thinking)
    requires
        mode != Thinking::Off,
    ensures
        ({
            let s = think_sampling(r, d, mode);
            let nested = r.reasoning matches Some(p) && p.temperature is Some;
            &&& r.reasoning_temperature matches Some(t) ==> (s matches Some(x) && x.temp == t)
            &&& r.reasoning_temperature is None && nested ==> (s matches Some(x) && Some(x.temp)
                == (r.reasoning->0).temperature)
            &&& r.reasoning_temperature is None && !nested ==> {
                &&& d.think_temp matches Some(t) ==> (s matches Some(x) && x.temp == t)
                &&& d.think_temp is None ==> (s matches Some(x) ==> x.temp == answer_sampling(r, d).temp)
            }
        }),
{
}

/// Inside the think block the request's own setting holds before the nested one, that before the
/// server's, and the answer's where none is given: the probability mass.
pub proof fn law_think_top_p<F>(r: ChatRequest<F>, d: SamplingDefaults<F>, mode: Thinking)
    requires
        mode != Thinking::Off,
    ensures
        ({
            let s = think_sampling(r, d, mode);
            let nested = r.reasoning matches Some(p) && p.top_p is Some;
            &&& r.reasoning_top_p matches Some(t) ==> (s matches Some(x) && x.top_p == t)
            &&& r.reasoning_top_p is None && nested ==> (s matches Some(x) && Some(x.top_p)
                == (r.reasoning->0).top_p)
            &&& r.reasoning_top_p is None && !nested ==> {
                &&& d.think_top_p matches Some(t) ==> (s matches Some(x) && x.top_p == t)
                &&& d.think_top_p is None ==> (s matches Some(x) ==> x.top_p == answer_sampling(r, d).top_p)
            }
        }),
{
}

/// Inside the think block the request's own setting holds before the nested one, that before the
/// server's, and the answer's where none is given: the number of candidates.
pub proof fn law_think_top_k<F>(r: ChatRequest<F>, d: SamplingDefaults<F>, mode: Thinking)
    requires
        mode != Thinking::Off,
    ensures
        ({
            let s = think_sampling(r, d, mode);
            let nested = r.reasoning matches Some(p) && p.top_k is Some;
            &&& r.reasoning_top_k matches Some(t) ==> (s matches Some(x) && x.top_k == t)
            &&& r.reasoning_top_k is None && nested ==> (s matches Some(x) && Some(x.top_k)
                == (r.reasoning->0).top_k)
            &&& r.reasoning_top_k is None && !nested ==> {
                &&& d.think_top_k matches Some(t) ==> (s matches Some(x) && x.top_k == t)
                &&& d.think_top_k is None ==> (s matches Some(x) ==> x.top_k == answer_sampling(r, d).top_k)
            }
        }),
{
}

/// Where nothing is thought, or nothing is said of the think block, there is no sampling of its own.
pub proof fn law_no_think_sampling_is_made_up<F>(r: ChatRequest<F>, d: SamplingDefaults<F>, mode: Thinking)
    ensures
        mode == Thinking::Off ==> think_sampling(r, d, mode) is None,
        r.reasoning_temperature is None && r.reasoning_top_p is None && r.reasoning_top_k is None
            && r.reasoning is None && d.think_temp is None && d.think_top_p is None && d.think_top_k is None
            ==> think_sampling(r, d, mode) is None,
{
}

/// Settings are accepted exactly where the temperature is a number from 0 to 2 and `top_p` one above
/// 0 up to 1: by their bits, those up to the bits of 2 (and of minus zero), and those from the
/// smallest positive number to the bits of 1.
pub proof fn law_accepted_sampling(temp: u32, top_p: u32)
    ensures
        sampling_refusal(temp, top_p) is None <==> (temp <= 0x4000_0000 || temp == 0x8000_0000) && 0 < top_p
            <= 0x3f80_0000,
{
}

/// A budget is at least one token and never more than the window has room for; without a wish it is
/// all of that, and a wish that fits is granted as it is.
pub proof fn law_budget_fits_the_window(len: int, ctx: int, wanted: Option<usize>)
    requires
        0 <= len < ctx,
    ensures
        ({
            let t = room_for(len, ctx, wanted);
            &&& 1 <= t <= ctx - len
            &&& wanted is None ==> t == ctx - len
            &&& wanted matches Some(w) ==> (1 <= w <= ctx - len ==> t == w)
            &&& wanted matches Some(w) ==> (w > ctx - len ==> t == ctx - len)
        }),
{
}

/// The limit under the newer name counts before the one under the older.
pub proof fn law_newer_limit_counts<F>(r: ChatRequest<F>)
    ensures
        r.max_completion_tokens matches Some(n) ==> wanted_tokens(r) == Some(n),
        r.max_completion_tokens is None ==> wanted_tokens(r) == r.max_tokens,
{
}

/// The stop strings are those given, in their order, without the empty ones.
pub proof fn law_stop_strings_are_those_given(v: Seq<Seq<char>>, x: Seq<char>)
    ensures
        not_empty(Seq::empty(), 0) == Seq::<Seq<char>>::empty(),
        x.len() > 0 ==> not_empty(v.push(x), v.len() as int + 1) == not_empty(v, v.len() as int).push(x),
        x.len() == 0 ==> not_empty(v.push(x), v.len() as int + 1) == not_empty(v, v.len() as int),
        given_stops(None) == Seq::<Seq<char>>::empty(),
        MAX_STOPS == 16,
{
    lemma_not_empty_of_more(v, x, v.len() as int);
    assert(v.push(x)[v.len() as int] == x);
}

proof fn lemma_not_empty_of_more(v: Seq<Seq<char>>, x: Seq<char>, n: int)
    requires
        n <= v.len(),
    ensures
        not_empty(v.push(x), n) == not_empty(v, n),
    decreases n,
{
    if n > 0 {
        lemma_not_empty_of_more(v, x, n - 1);
        assert(v.push(x)[n - 1] == v[n - 1]);
    }
}

/// A single stop string is one, and a list is all of its.
pub proof fn law_forms_of_stop_strings(s: Stop, i: int)
    ensures
        s matches Stop::One(x) ==> given_stops(Some(s)) == seq![x@],
        s matches Stop::Many(v) ==> given_stops(Some(s)).len() == v@.len() && (0 <= i < v@.len()
            ==> given_stops(Some(s))[i] == v@[i]@),
{
}

/// The tools that a request lists are offered unless it rules out calls; a wish to force a call is
/// refused.
pub proof fn law_offered_tools<F>(r: ChatRequest<F>)
    ensures
        r.tool_choice is None || (r.tool_choice matches Some(c) && c@ == JsonView::Text("auto"@)) ==> {
            &&& r.tools matches Some(t) ==> offered(r) == Some(items_view(t@))
            &&& r.tools is None ==> offered(r) == Some(Seq::<JsonView>::empty())
        },
        r.tool_choice matches Some(c) && c@ == JsonView::Text("none"@) ==> offered(r) == Some(
            Seq::<JsonView>::empty(),
        ),
        r.tool_choice matches Some(c) && c@ != JsonView::Text("none"@) && c@ != JsonView::Text("auto"@)
            ==> offered(r) is None,
{
    reveal_strlit("auto");
    reveal_strlit("none");
    reveal_strlit("named");
    assert("auto"@[0] == 'a' && "none"@[0] == 'n' && "auto"@.len() == 4 && "none"@.len() == 4
        && "named"@.len() == 5);
}

/// Calls in the answer are read by the tools that were offered, each in its place.
pub proof fn law_calls_are_read_by_the_offered_tools(tools: Seq<JsonView>, n: int, i: int)
    requires
        0 <= i < n <= tools.len(),
    ensures
        specs_of(tools, n).len() == n,
        tool_of(tools[i]) matches Some(t) ==> specs_of(tools, n)[i] == t,
    decreases n,
{
    if i < n - 1 {
        law_calls_are_read_by_the_offered_tools(tools, n - 1, i);
    } else if n > 1 {
        law_calls_are_read_by_the_offered_tools(tools, n - 1, 0);
    } else {
        assert(specs_of(tools, 0).len() == 0);
    }
}

/// A request is answered exactly where its number of choices is allowed, it forces no call, all of
/// its tools have names, its efforts are known and its prompt can be rendered.
pub proof fn law_answerable_requests<F>(r: ChatRequest<F>, default: Thinking, max_choices: usize)
    ensures
        complaint(r, default, max_choices) is None <==> {
            &&& r.n matches Some(n) ==> 1 <= n <= max_choices
            &&& r.n is None ==> 1 <= max_choices
            &&& offered(r) is Some
            &&& forall|i: int| 0 <= i < (offered(r)->0).len() ==> tool_of(#[trigger] (offered(r)->0)[i]) is Some
            &&& !bad_effort(efforts(r)[0]) && !bad_effort(efforts(r)[1]) && !bad_effort(efforts(r)[2])
            &&& prompt_of(messages_view(r.messages@), thinking_mode(r, default), offered(r)->0) is Ok
        },
{
    if let Some(tools) = offered(r) {
        lemma_unnamed(tools, 0);
    }
}

proof fn lemma_unnamed(tools: Seq<JsonView>, i: int)
    requires
        0 <= i,
    ensures
        unnamed(tools, i) <==> exists|k: int| i <= k < tools.len() && tool_of(#[trigger] tools[k]) is None,
    decreases tools.len() - i,
{
    if i < tools.len() {
        lemma_unnamed(tools, i + 1);
    }
}

/// With a key, a request may use the API exactly where its header is `Bearer`, a blank and the key,
/// white space around the key aside.
pub proof fn law_bearer_token(token: Seq<char>, key: Seq<char>, other: Seq<char>)
    ensures
        allowed(Some("Bearer "@ + token), Some(key)) == (trim(token) == key),
        allowed(None, Some(key)) == false,
        !begins_with(other, "Bearer "@) ==> !allowed(Some(other), Some(key)),
        allowed(Some(other), None),
        allowed(None, None),
{
    let all = "Bearer "@ + token;
    assert(all.subrange(0, "Bearer "@.len() as int) =~= "Bearer "@);
    assert(all.skip("Bearer "@.len() as int) =~= token);
}

/// A slash at the end of a path makes no difference.
pub proof fn law_slashes_at_the_end_are_ignored(
    method: Seq<char>,
    path: Seq<char>,
    auth: Option<Seq<char>>,
    key: Option<Seq<char>>,
    model: Seq<char>,
)
    ensures
        routed(method, path.push('/'), auth, key, model) == routed(method, path, auth, key, model),
{
    assert(path.push('/').drop_last() =~= path);
}

/// Where the requests of the API go: chats are posted, models are got.
pub proof fn law_routes_of_the_api(
    auth: Option<Seq<char>>,
    key: Option<Seq<char>>,
    model: Seq<char>,
    id: Seq<char>,
)
    requires
        allowed(auth, key),
        id.len() > 0,
        id.last() != '/',
    ensures
        routed("POST"@, "/v1/chat/completions"@, auth, key, model) == RouteView::Chat,
        routed("GET"@, "/v1/chat/completions"@, auth, key, model) == RouteView::NoRoute,
        routed("GET"@, "/v1/models"@, auth, key, model) == RouteView::Models,
        routed("POST"@, "/v1/models"@, auth, key, model) == RouteView::NoRoute,
        routed("GET"@, "/v1/models/"@ + id, auth, key, model) == if id == model {
            RouteView::Model
        } else {
            RouteView::NoModel(id)
        },
{
    lemma_paths();
    let path = "/v1/models/"@ + id;
    assert(path.last() == id.last());
    assert(path.subrange(0, 11) =~= "/v1/models/"@);
    assert(path.skip(11) =~= id);
    assert(path.len() > 11);
    assert(path[1] == 'v' && "/health"@[1] == 'h');
    assert(path[10] == '/' && "/v1/models"@.len() == 10);
    let chat = "/v1/chat/completions"@;
    assert(chat[4] == 'c' && "/v1/models/"@[4] == 'm');
    if found_at(chat, "/v1/models/"@, 0) {
        assert(chat.subrange(0, 11)[4] == "/v1/models/"@[4]);
    }
}

/// The report on health and the answer to a browser's question are for everybody.
pub proof fn law_open_routes(
    method: Seq<char>,
    path: Seq<char>,
    auth: Option<Seq<char>>,
    key: Option<Seq<char>>,
    model: Seq<char>,
)
    ensures
        routed("OPTIONS"@, path, auth, key, model) == RouteView::Preflight,
        method != "OPTIONS"@ ==> routed(method, "/health"@, auth, key, model) == RouteView::Health,
        method != "OPTIONS"@ ==> routed(method, "/"@, auth, key, model) == RouteView::Health,
{
    lemma_paths();
    reveal_strlit("/");
    assert("/"@.drop_last() =~= Seq::<char>::empty());
    reveal_with_fuel(without_slashes, 2);
}

proof fn lemma_paths()
    ensures
        "POST"@ != "GET"@ && "POST"@ != "OPTIONS"@ && "GET"@ != "OPTIONS"@,
        "/health"@.len() == 7 && "/health"@[1] == 'h' && "/health"@.last() != '/',
        "/v1/models"@.len() == 10 && "/v1/models"@[1] == 'v' && "/v1/models"@.last() != '/',
        "/v1/models/"@.len() == 11 && "/v1/models/"@[4] == 'm' && "/v1/models/"@[1] == 'v'
            && "/v1/models/"@[10] == '/',
        "/v1/chat/completions"@.len() == 20 && "/v1/chat/completions"@[1] == 'v'
            && "/v1/chat/completions"@[4] == 'c' && "/v1/chat/completions"@.last() != '/',
{
    reveal_strlit("POST");
    reveal_strlit("GET");
    reveal_strlit("OPTIONS");
    reveal_strlit("/health");
    reveal_strlit("/v1/models");
    reveal_strlit("/v1/models/");
    reveal_strlit("/v1/chat/completions");
    assert("POST"@.len() == 4 && "GET"@.len() == 3 && "OPTIONS"@.len() == 7);
}

/// An error's body says its message under `error.message` and its kind under `error.type`.
pub proof fn law_error_tells_its_message(status: u16, msg: Seq<char>)
    ensures
        error_view(status, msg).at("error"@) matches Some(e) && e.at("message"@) == Some(
            JsonView::Text(msg),
        ) && e.at("type"@) == Some(
            JsonView::Text(
                match status {
                    400 => "invalid_request_error"@,
                    401 => "authentication_error"@,
                    404 => "not_found_error"@,
                    _ => "server_error"@,
                },
            ),
        ),
{
    reveal_strlit("message");
    reveal_strlit("type");
    assert("message"@.len() == 7 && "type"@.len() == 4);
    let inner = seq![
        entry("message"@, JsonView::Text(msg)),
        entry("type"@, JsonView::Text(error_type(status))),
        entry("param"@, JsonView::Null),
        entry("code"@, JsonView::Null),
    ];
    let outer = seq![entry("error"@, JsonView::Object(inner))];
    lemma_found(outer, 0, "error"@, JsonView::Object(inner));
    lemma_found(inner, 0, "message"@, JsonView::Text(msg));
    lemma_found(inner, 1, "type"@, JsonView::Text(error_type(status)));
}

/// The model is listed under its name, with the time of its creation.
pub proof fn law_model_is_listed_by_name(id: Seq<char>, created: u64)
    ensures
        model_view(id, created).at("id"@) == Some(JsonView::Text(id)),
        model_view(id, created).at("object"@) == Some(JsonView::Text("model"@)),
        model_view(id, created).at("created"@) matches Some(n) && n.number() == Some(created),
{
    reveal_strlit("id");
    reveal_strlit("object");
    reveal_strlit("created");
    assert("id"@.len() == 2 && "object"@.len() == 6 && "created"@.len() == 7);
    let m = model_view(id, created)->Object_0;
    lemma_found(m, 0, "id"@, JsonView::Text(id));
    lemma_found(m, 1, "object"@, JsonView::Text("model"@));
    lemma_found(m, 2, "created"@, number_view(created as nat));
    law_number_is_read_back(created as nat);
}

/// The scheduler's counts stand in the health report under their own names.
pub proof fn law_counts_are_reported(c: SchedulerCounts)
    ensures
        counts_view(c).at("queued_requests"@) matches Some(n) && n.number() == Some(c.queued),
        counts_view(c).at("active_sequences"@) matches Some(n) && n.number() == Some(c.active),
        counts_view(c).at("idle_pages"@) matches Some(n) && n.number() == Some(c.idle_pages),
        counts_view(c).at("kv_total_pages"@) matches Some(n) && n.number() == Some(c.page_capacity),
        counts_view(c).at("kv_free_pages"@) matches Some(n) && n.number() == Some(c.free_pages),
        counts_view(c).at("iterations"@) matches Some(n) && n.number() == Some(c.iterations),
        counts_view(c).at("decode_rows"@) matches Some(n) && n.number() == Some(c.decode_rows),
        counts_view(c).at("prefill_rows"@) matches Some(n) && n.number() == Some(c.prefill_rows),
        counts_view(c).at("max_batch_sequences"@) matches Some(n) && n.number() == Some(
            c.max_batch_sequences,
        ),
{
    reveal_strlit("queued_requests");
    reveal_strlit("active_sequences");
    reveal_strlit("idle_pages");
    reveal_strlit("kv_total_pages");
    reveal_strlit("kv_free_pages");
    reveal_strlit("iterations");
    reveal_strlit("decode_rows");
    reveal_strlit("prefill_rows");
    reveal_strlit("max_batch_sequences");
    assert("queued_requests"@.len() == 15 && "active_sequences"@.len() == 16 && "idle_pages"@.len() == 10
        && "kv_total_pages"@.len() == 14 && "kv_free_pages"@.len() == 13 && "iterations"@.len() == 10
        && "decode_rows"@.len() == 11 && "prefill_rows"@.len() == 12 && "max_batch_sequences"@.len() == 19);
    assert("idle_pages"@[1] == 'd' && "iterations"@[1] == 't');
    let m = counts_view(c)->Object_0;
    lemma_found(m, 0, "queued_requests"@, number_view(c.queued as nat));
    lemma_found(m, 1, "active_sequences"@, number_view(c.active as nat));
    lemma_found(m, 2, "idle_pages"@, number_view(c.idle_pages as nat));
    lemma_found(m, 3, "kv_total_pages"@, number_view(c.page_capacity as nat));
    lemma_found(m, 4, "kv_free_pages"@, number_view(c.free_pages as nat));
    lemma_found(m, 5, "iterations"@, number_view(c.iterations as nat));
    lemma_found(m, 6, "decode_rows"@, number_view(c.decode_rows as nat));
    lemma_found(m, 7, "prefill_rows"@, number_view(c.prefill_rows as nat));
    lemma_found(m, 8, "max_batch_sequences"@, number_view(c.max_batch_sequences as nat));
    law_number_is_read_back(c.queued as nat);
    law_number_is_read_back(c.active as nat);
    law_number_is_read_back(c.idle_pages as nat);
    law_number_is_read_back(c.page_capacity as nat);
    law_number_is_read_back(c.free_pages as nat);
    law_number_is_read_back(c.iterations as nat);
    law_number_is_read_back(c.decode_rows as nat);
    law_number_is_read_back(c.prefill_rows as nat);
    law_number_is_read_back(c.max_batch_sequences as nat);
}

} // verus!
