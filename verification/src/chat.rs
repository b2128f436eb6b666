//! Chat-completions requests and the model's chat template (ChatML with the reasoning-effort
//! system line and `<think>` generation prompt). Image parts render as
//! `<|vision_start|><|image_pad|><|vision_end|>` and their sources are returned in order (the
//! server expands each pad into the image's tokens).
use crate::json::{
    items_view, lemma_array_view, lemma_object_view, members_view, parse_checked, parse_result, Json,
    JsonView, MemberView,
};
use crate::role::Role;
use crate::text::{from_chars, matches_at, owned, push_text, str_eq, texts, to_chars, trim, trimmed};
use crate::tools::{function_of, py_json, py_text, starts};
use crate::utf8::{law_byte_len, lemma_byte_len_bounds, lemma_byte_len_concat};
use vstd::prelude::*;
use vstd::utf8::encode_utf8;

verus! {

/// A chat-completions request; `F` is the type of its fractions (temperatures, probabilities).
pub struct ChatRequest<F> {
    pub model: Option<String>,
    pub messages: Vec<Message>,
    pub stream: bool,
    pub stream_options: Option<StreamOptions>,
    pub max_tokens: Option<usize>,
    pub max_completion_tokens: Option<usize>,
    pub temperature: Option<F>,
    pub top_p: Option<F>,
    pub top_k: Option<usize>,
    pub seed: Option<i64>,
    pub stop: Option<Stop>,
    pub n: Option<usize>,
    pub reasoning_effort: Option<String>,
    /// Sampling inside the `<think>` block (also accepted as `reasoning.{temperature,top_p,top_k}`)
    pub reasoning_temperature: Option<F>,
    pub reasoning_top_p: Option<F>,
    pub reasoning_top_k: Option<usize>,
    pub enable_thinking: Option<bool>,
    pub chat_template_kwargs: Option<TemplateKwargs>,
    pub reasoning: Option<ReasoningParam<F>>,
    pub tools: Option<Vec<Json>>,
    pub tool_choice: Option<Json>,
}

/// A message of the conversation.
pub struct Message {
    pub role: String,
    pub content: Json,
    pub reasoning_content: Option<String>,
    pub tool_calls: Option<Vec<Json>>,
}

pub struct StreamOptions {
    pub include_usage: bool,
}

pub struct TemplateKwargs {
    pub enable_thinking: Option<bool>,
    pub reasoning_effort: Option<String>,
}

pub struct ReasoningParam<F> {
    pub enabled: Option<bool>,
    pub effort: Option<String>,
    pub temperature: Option<F>,
    pub top_p: Option<F>,
    pub top_k: Option<usize>,
}

pub enum Stop {
    One(String),
    Many(Vec<String>),
}

impl Stop {
    /// The stop strings.
    pub fn into_vec(self) -> (v: Vec<String>)
        ensures
            match self {
                Stop::One(s) => v@ == seq![s],
                Stop::Many(m) => v@ == m@,
            },
    {
        match self {
            Stop::One(s) => {
                let mut v: Vec<String> = Vec::new();
                v.push(s);
                assert(v@ =~= seq![s]);
                v
            },
            Stop::Many(v) => v,
        }
    }
}

#[derive(Clone, Copy, Debug, PartialEq, Eq, Structural)]
pub enum Thinking {
    Off,
    XHigh,
    Medium,
    Low,
}

/// An ASCII capital as a small letter, any other character as it is.
pub open spec fn lower(c: char) -> char {
    if 'A' <= c <= 'Z' { (c as u8 + 32) as u8 as char } else { c }
}

pub open spec fn lower_text(s: Seq<char>) -> Seq<char> {
    Seq::new(s.len(), |i: int| lower(s[i]))
}

pub(crate) fn lower_char(c: char) -> (r: char)
    ensures
        r == lower(c),
{
    let u: u32 = c as u32;
    if 65 <= u && u <= 90 { ((u + 32) as u8) as char } else { c }
}

/// The text with ASCII capitals as small letters.
pub(crate) fn lowered(s: &[char]) -> (v: Vec<char>)
    ensures
        v@ == lower_text(s@),
{
    let mut v: Vec<char> = Vec::new();
    let n: usize = s.len();
    let mut i: usize = 0;
    while i < n
        invariant
            i <= n,
            n == s@.len(),
            v@.len() == i,
            forall|k: int| 0 <= k < i ==> v@[k] == lower(s@[k]),
        decreases n - i,
    {
        v.push(lower_char(s[i]));
        i = i + 1;
    }
    assert(v@ =~= lower_text(s@));
    v
}

/// The thinking mode of an effort name, in small letters.
pub open spec fn effort_mode(s: Seq<char>) -> Option<Thinking> {
    if s == "xhigh"@ || s == "high"@ {
        Some(Thinking::XHigh)
    } else if s == "medium"@ {
        Some(Thinking::Medium)
    } else if s == "low"@ {
        Some(Thinking::Low)
    } else if s == "none"@ || s == "minimal"@ || s == "off"@ || s == "false"@ {
        Some(Thinking::Off)
    } else {
        None
    }
}

impl Thinking {
    /// The instruction line that the template adds for a mode.
    pub open spec fn instruction_text(self) -> Seq<char> {
        match self {
            Thinking::XHigh => "Reasoning effort is set to xhigh. Please think carefully through the task, validate key assumptions, consider plausible alternatives, and prioritize correctness, consistency, and clarity in the final answer."@,
            Thinking::Low => "Reasoning effort is set to low. Keep your thinking brief and focused, moving directly to the conclusion without unnecessary elaboration."@,
            Thinking::Medium => ""@,
            Thinking::Off => ""@,
        }
    }

    /// Values accepted for `reasoning_effort` (server flag and request): the template's
    /// xhigh/medium/low, OpenAI's high (= xhigh), and none/minimal/off/false to disable thinking;
    /// capitals count as small letters.
    pub fn parse(s: &str) -> (r: Option<Thinking>)
        ensures
            r == effort_mode(lower_text(s@)),
    {
        let c = to_chars(s);
        let low = lowered(c.as_slice());
        let t = from_chars(low.as_slice());
        let t = t.as_str();
        if str_eq(t, "xhigh") || str_eq(t, "high") {
            Some(Thinking::XHigh)
        } else if str_eq(t, "medium") {
            Some(Thinking::Medium)
        } else if str_eq(t, "low") {
            Some(Thinking::Low)
        } else if str_eq(t, "none") || str_eq(t, "minimal") || str_eq(t, "off") || str_eq(t, "false") {
            Some(Thinking::Off)
        } else {
            None
        }
    }

    /// The instruction line that the template adds for a mode.
    pub fn instructions(self) -> (s: &'static str)
        ensures
            s@ == self.instruction_text(),
    {
        match self {
            Thinking::XHigh => "Reasoning effort is set to xhigh. Please think carefully through the task, validate key assumptions, consider plausible alternatives, and prioritize correctness, consistency, and clarity in the final answer.",
            Thinking::Low => "Reasoning effort is set to low. Keep your thinking brief and focused, moving directly to the conclusion without unnecessary elaboration.",
            Thinking::Medium => "",
            Thinking::Off => "",
        }
    }
}

/// A string as Rust's `{:?}` writes it: in quotes, with escapes.
pub uninterp spec fn debug_quoted(s: Seq<char>) -> Seq<char>;

/// The `Debug` form of a string slice, by `format!("{:?}")`: a function of the text alone.
#[verifier::external_body]
pub(crate) fn debug_text(s: &str) -> (r: String)
    ensures
        r@ == debug_quoted(s@),
{
    format!("{:?}", s)
}

/// The text of an optional string.
pub open spec fn opt_text(s: Option<String>) -> Option<Seq<char>> {
    match s {
        Some(t) => Some(t@),
        None => None,
    }
}

/// The first effort that is given: in the template arguments, in `reasoning`, in the request.
pub open spec fn efforts<F>(r: ChatRequest<F>) -> Seq<Option<Seq<char>>> {
    seq![
        match r.chat_template_kwargs {
            Some(k) => opt_text(k.reasoning_effort),
            None => None,
        },
        match r.reasoning {
            Some(p) => opt_text(p.effort),
            None => None,
        },
        opt_text(r.reasoning_effort),
    ]
}

/// Whether an effort is given that is none of the known ones.
pub open spec fn bad_effort(e: Option<Seq<char>>) -> bool {
    e is Some && effort_mode(lower_text(e->0)) is None
}

/// The switches, most specific first: in the template arguments, in the request, in `reasoning`.
pub open spec fn switches<F>(r: ChatRequest<F>) -> Seq<Option<bool>> {
    seq![
        match r.chat_template_kwargs {
            Some(k) => k.enable_thinking,
            None => None,
        },
        r.enable_thinking,
        match r.reasoning {
            Some(p) => p.enabled,
            None => None,
        },
    ]
}

/// The effort that counts: the first one given, else the default.
pub open spec fn effort_of<F>(r: ChatRequest<F>, default: Thinking) -> Thinking {
    let e = efforts(r);
    if e[0] is Some {
        effort_mode(lower_text(e[0]->0))->0
    } else if e[1] is Some {
        effort_mode(lower_text(e[1]->0))->0
    } else if e[2] is Some {
        effort_mode(lower_text(e[2]->0))->0
    } else {
        default
    }
}

/// The mode that a switch asks for, where the effort is `mode`: off; or on, at `xhigh` where the
/// effort would leave it off.
pub open spec fn switched(on: bool, mode: Thinking) -> Thinking {
    if !on {
        Thinking::Off
    } else if mode == Thinking::Off {
        Thinking::XHigh
    } else {
        mode
    }
}

/// The thinking mode of a request whose efforts are known. The first of four places that says
/// anything decides: the template arguments, the request's own switch, `reasoning`,
/// `reasoning_effort`. Where it switches thinking on without an effort, the effort is the next one
/// given, or the default's.
pub open spec fn thinking_mode<F>(r: ChatRequest<F>, default: Thinking) -> Thinking {
    let mode = effort_of(r, default);
    let s = switches(r);
    let e = efforts(r);
    if s[0] is Some {
        switched(s[0]->0, mode)
    } else if e[0] is Some {
        mode
    } else if s[1] is Some {
        switched(s[1]->0, mode)
    } else if s[2] is Some {
        switched(s[2]->0, mode)
    } else {
        mode
    }
}

/// The message for an effort that is not known.
pub open spec fn effort_message(e: Seq<char>) -> Seq<char> {
    "unexpected reasoning effort "@ + debug_quoted(e)
        + ": supported are xhigh (default), high, medium, low, none"@
}

fn effort(s: &Option<String>) -> (r: Result<Option<Thinking>, String>)
    ensures
        match opt_text(*s) {
            None => r == Ok::<Option<Thinking>, String>(None),
            Some(e) => match effort_mode(lower_text(e)) {
                Some(m) => r == Ok::<Option<Thinking>, String>(Some(m)),
                None => r matches Err(msg) && msg@ == effort_message(e),
            },
        },
{
    match s {
        None => Ok(None),
        Some(v) => match Thinking::parse(v.as_str()) {
            Some(m) => Ok(Some(m)),
            None => {
                let mut e = owned("unexpected reasoning effort ");
                let d = debug_text(v.as_str());
                push_text(&mut e, d.as_str());
                push_text(&mut e, ": supported are xhigh (default), high, medium, low, none");
                Err(e)
            },
        },
    }
}

/// Resolve the thinking mode from the request fields, most specific first:
/// `chat_template_kwargs.{enable_thinking,reasoning_effort}`, `enable_thinking`,
/// `reasoning.{enabled,effort}`, `reasoning_effort`, then the server default. The first of these
/// places that says anything decides. An unknown effort in any of them is an error.
pub fn resolve_thinking<F>(r: &ChatRequest<F>, default: Thinking) -> (m: Result<Thinking, String>)
    ensures
        ({
            let e = efforts(*r);
            if bad_effort(e[0]) {
                m matches Err(msg) && msg@ == effort_message(e[0]->0)
            } else if bad_effort(e[1]) {
                m matches Err(msg) && msg@ == effort_message(e[1]->0)
            } else if bad_effort(e[2]) {
                m matches Err(msg) && msg@ == effort_message(e[2]->0)
            } else {
                m == Ok::<Thinking, String>(thinking_mode(*r, default))
            }
        }),
{
    let a = match &r.chat_template_kwargs {
        Some(k) => match effort(&k.reasoning_effort) {
            Ok(x) => x,
            Err(e) => {
                return Err(e);
            },
        },
        None => None,
    };
    let b = match &r.reasoning {
        Some(p) => match effort(&p.effort) {
            Ok(x) => x,
            Err(e) => {
                return Err(e);
            },
        },
        None => None,
    };
    let c = match effort(&r.reasoning_effort) {
        Ok(x) => x,
        Err(e) => {
            return Err(e);
        },
    };
    let mode = match (a, b, c) {
        (Some(m), _, _) => m,
        (None, Some(m), _) => m,
        (None, None, Some(m)) => m,
        _ => default,
    };
    let kw: Option<bool> = match &r.chat_template_kwargs {
        Some(k) => k.enable_thinking,
        None => None,
    };
    let rp: Option<bool> = match &r.reasoning {
        Some(p) => p.enabled,
        None => None,
    };
    let switch: Option<bool> = match (kw, a, r.enable_thinking) {
        (Some(b), _, _) => Some(b),
        (None, Some(_), _) => None,
        (None, None, Some(b)) => Some(b),
        (None, None, None) => rp,
    };
    match switch {
        Some(true) => Ok(if mode == Thinking::Off { Thinking::XHigh } else { mode }),
        Some(false) => Ok(Thinking::Off),
        None => Ok(mode),
    }
}

pub const TOOL_INSTRUCTIONS: &'static str = "\n\nIf you choose to call a function ONLY reply in the following format with NO suffix:\n\n<tool_call>\n<function=example_function_name>\n<parameter=example_parameter_1>\nvalue_1\n</parameter>\n<parameter=example_parameter_2>\nThis is the value for the second parameter\nthat can span\nmultiple lines\n</parameter>\n</function>\n</tool_call>\n\n<IMPORTANT>\nReminder:\n- Function calls MUST follow the specified format: an inner <function=...></function> block must be nested within <tool_call></tool_call> XML tags\n- Required parameters MUST be specified\n- You may provide optional reasoning for your function call in natural language BEFORE the function call, but NOT after\n- If there is no function call available, answer the question like normal with your current knowledge and do not tell the user about function calls\n</IMPORTANT>";

/// Image placeholder the template emits per image part; the server expands the pad token.
pub const IMAGE_PLACEHOLDER: &'static str = "<|vision_start|><|image_pad|><|vision_end|>";

/// The source of an image part: `image_url.url` (data URI or http(s)) or `image_url` itself, or
/// `image` (a URL string).
pub open spec fn image_source_of(it: JsonView) -> Option<Seq<char>> {
    match it.at("image_url"@) {
        Some(u) => match u.at("url"@) {
            Some(JsonView::Text(t)) => Some(t),
            _ => u.text(),
        },
        None => match it.at("image"@) {
            Some(x) => x.text(),
            None => None,
        },
    }
}

/// The text and the images of a message.
#[verifier::ext_equal]
pub struct ContentView {
    pub text: Seq<char>,
    pub images: Seq<Seq<char>>,
}

/// The type of a content item, empty where it has none.
pub open spec fn item_type(it: JsonView) -> Seq<char> {
    match it.at("type"@) {
        Some(JsonView::Text(t)) => t,
        _ => Seq::empty(),
    }
}

/// The text of a content item, where it has one.
pub open spec fn item_text(it: JsonView) -> Option<Seq<char>> {
    match it.at("text"@) {
        Some(x) => x.text(),
        None => None,
    }
}

/// A content with one more item, or why the item is refused.
pub open spec fn with_item(c: ContentView, it: JsonView, allow_images: bool) -> Result<
    ContentView,
    Seq<char>,
> {
    let ty = item_type(it);
    if let Some(t) = item_text(it) {
        Ok(ContentView { text: c.text + t, ..c })
    } else if let Some(src) = image_source_of(it) {
        if allow_images {
            Ok(ContentView { text: c.text + IMAGE_PLACEHOLDER@, images: c.images.push(src) })
        } else {
            Err("System message cannot contain images."@)
        }
    } else if it.at("video"@) is Some || starts(ty, "video"@) || starts(ty, "input_audio"@) {
        Err("video and audio content is not supported"@)
    } else if starts(ty, "image"@) {
        Err("image part needs image_url.url (data: URI or http(s) URL)"@)
    } else {
        Err("unexpected content item; only text and image parts are supported"@)
    }
}

/// The content of the first `n` items.
pub open spec fn items_content(a: Seq<JsonView>, n: int, allow_images: bool) -> Result<
    ContentView,
    Seq<char>,
>
    decreases n,
{
    if n <= 0 {
        Ok(ContentView { text: Seq::empty(), images: Seq::empty() })
    } else {
        match items_content(a, n - 1, allow_images) {
            Ok(c) => with_item(c, a[n - 1], allow_images),
            Err(e) => Err(e),
        }
    }
}

/// The content of a message, or why it is refused.
pub open spec fn content_of(v: JsonView, allow_images: bool) -> Result<ContentView, Seq<char>> {
    match v {
        JsonView::Null => Ok(ContentView { text: Seq::empty(), images: Seq::empty() }),
        JsonView::Text(t) => Ok(ContentView { text: t, images: Seq::empty() }),
        JsonView::Array(a) => items_content(a, a.len() as int, allow_images),
        _ => Err("unexpected content type"@),
    }
}

fn image_source(it: &Json) -> (r: Option<String>)
    ensures
        opt_text(r) == image_source_of(it@),
{
    match it.get("image_url") {
        Some(u) => {
            if let Some(Json::Text(t)) = u.get("url") {
                return Some(owned(t.as_str()));
            }
            match u.as_str() {
                Some(t) => Some(owned(t)),
                None => None,
            }
        },
        None => match it.get("image") {
            Some(x) => match x.as_str() {
                Some(t) => Some(owned(t)),
                None => None,
            },
            None => None,
        },
    }
}

fn push_string(v: &mut Vec<String>, s: String)
    ensures
        texts(final(v)@) == texts(old(v)@).push(s@),
{
    v.push(s);
    assert(texts(v@) =~= texts(old(v)@).push(s@));
}

/// The text and the image sources of an item appended, or why the item is refused.
fn add_item(it: &Json, text: &mut String, images: &mut Vec<String>, allow_images: bool) -> (r: Result<
    (),
    String,
>)
    ensures
        ({
            let c = ContentView { text: old(text)@, images: texts(old(images)@) };
            match with_item(c, it@, allow_images) {
                Ok(d) => r is Ok && final(text)@ == d.text && texts(final(images)@) == d.images,
                Err(e) => r matches Err(m) && m@ == e,
            }
        }),
{
    if let Some(t) = it.get("text") {
        if let Some(t) = t.as_str() {
            push_text(text, t);
            return Ok(());
        }
    }
    if let Some(src) = image_source(it) {
        if !allow_images {
            return Err(owned("System message cannot contain images."));
        }
        push_string(images, src);
        push_text(text, IMAGE_PLACEHOLDER);
        return Ok(());
    }
    let ty: Vec<char> = match it.get("type") {
        Some(Json::Text(t)) => to_chars(t.as_str()),
        _ => Vec::new(),
    };
    assert(ty@ =~= item_type(it@));
    let video = to_chars("video");
    let audio = to_chars("input_audio");
    let image = to_chars("image");
    if it.get("video").is_some() || matches_at(ty.as_slice(), video.as_slice(), 0) || matches_at(
        ty.as_slice(),
        audio.as_slice(),
        0,
    ) {
        return Err(owned("video and audio content is not supported"));
    }
    if matches_at(ty.as_slice(), image.as_slice(), 0) {
        return Err(owned("image part needs image_url.url (data: URI or http(s) URL)"));
    }
    Err(owned("unexpected content item; only text and image parts are supported"))
}

/// The text of a message; its image sources are appended to `images`.
fn render_content(v: &Json, images: &mut Vec<String>, allow_images: bool) -> (r: Result<
    String,
    String,
>)
    ensures
        match content_of(v@, allow_images) {
            Ok(c) => r matches Ok(t) && t@ == c.text && texts(final(images)@) == texts(old(images)@)
                + c.images,
            Err(e) => r matches Err(m) && m@ == e,
        },
{
    let ghost before = texts(images@);
    match v {
        Json::Null => {
            let t = String::new();
            assert(t@ =~= Seq::<char>::empty());
            assert(before + Seq::<Seq<char>>::empty() =~= before);
            Ok(t)
        },
        Json::Text(t) => {
            assert(before + Seq::<Seq<char>>::empty() =~= before);
            Ok(owned(t.as_str()))
        },
        Json::Array(a) => {
            proof {
                lemma_array_view(*a);
            }
            let ghost view = items_view(a@);
            let mut out = String::new();
            let mut own: Vec<String> = Vec::new();
            let n: usize = a.len();
            let mut i: usize = 0;
            assert(out@ =~= Seq::<char>::empty());
            assert(texts(own@) =~= Seq::<Seq<char>>::empty());
            while i < n
                invariant
                    i <= n,
                    n == a@.len(),
                    view == items_view(a@),
                    v@ == JsonView::Array(view),
                    items_content(view, i as int, allow_images) == Ok::<ContentView, Seq<char>>(
                        ContentView { text: out@, images: texts(own@) },
                    ),
                decreases n - i,
            {
                assert(view[i as int] == a@[i as int]@);
                if let Err(e) = add_item(&a[i], &mut out, &mut own, allow_images) {
                    proof {
                        lemma_items_error(view, i + 1, n as int, allow_images);
                    }
                    return Err(e);
                }
                i = i + 1;
            }
            let ghost extra = own@;
            let ghost first = images@;
            images.append(&mut own);
            assert(texts(images@) =~= texts(first) + texts(extra));
            Ok(out)
        },
        _ => Err(owned("unexpected content type")),
    }
}

proof fn lemma_items_error(a: Seq<JsonView>, n: int, m: int, allow_images: bool)
    requires
        n <= m,
        items_content(a, n, allow_images) is Err,
    ensures
        items_content(a, m, allow_images) == items_content(a, n, allow_images),
    decreases m - n,
{
    if n < m {
        lemma_items_error(a, n, m - 1, allow_images);
    }
}

/// What a message says.
pub struct MessageView {
    pub role: Seq<char>,
    pub content: JsonView,
    /// The reasoning that came with an answer, empty without one.
    pub reasoning: Seq<char>,
    pub calls: Seq<JsonView>,
}

impl View for Message {
    type V = MessageView;

    open spec fn view(&self) -> MessageView {
        MessageView {
            role: self.role@,
            content: self.content@,
            reasoning: match self.reasoning_content {
                Some(t) => t@,
                None => Seq::empty(),
            },
            calls: match self.tool_calls {
                Some(v) => items_view(v@),
                None => Seq::empty(),
            },
        }
    }
}

pub open spec fn messages_view(v: Seq<Message>) -> Seq<MessageView> {
    Seq::new(v.len(), |i: int| v[i]@)
}

/// A segment of a prompt: the byte at which it starts, and its role.
pub struct Seg {
    pub at: nat,
    pub role: Role,
}

pub open spec fn segs_view(v: Seq<(usize, Role)>) -> Seq<Seg> {
    Seq::new(v.len(), |i: int| Seg { at: v[i].0 as nat, role: v[i].1 })
}

/// A prompt: its text, the segments of one role that it consists of, its image sources in order.
#[verifier::ext_equal]
pub struct PromptView {
    pub text: Seq<char>,
    pub segs: Seq<Seg>,
    pub images: Seq<Seq<char>>,
}

impl PromptView {
    /// The prompt with `t` at its end.
    pub open spec fn say(self, t: Seq<char>) -> PromptView {
        PromptView { text: self.text + t, ..self }
    }

    /// The prompt with a segment of that role begun at its end.
    pub open spec fn mark(self, role: Role) -> PromptView {
        PromptView { segs: self.segs.push(Seg { at: encode_utf8(self.text).len(), role }), ..self }
    }

    /// The prompt with more images.
    pub open spec fn with_images(self, images: Seq<Seq<char>>) -> PromptView {
        PromptView { images: self.images + images, ..self }
    }
}

pub open spec fn empty_prompt() -> PromptView {
    PromptView { text: Seq::empty(), segs: Seq::empty(), images: Seq::empty() }
}

/// Whether a message belongs to the system prompt.
pub open spec fn is_system(m: MessageView) -> bool {
    m.role == "system"@ || m.role == "developer"@
}

/// How many system messages lead, given that the first `i` do.
pub open spec fn leading(msgs: Seq<MessageView>, i: int) -> int
    decreases msgs.len() - i,
{
    if 0 <= i < msgs.len() && is_system(msgs[i]) { leading(msgs, i + 1) } else { i }
}

/// The contents of the first `n` messages, trimmed, the empty ones left out, one per line.
pub open spec fn merged_system(msgs: Seq<MessageView>, n: int) -> Result<Seq<char>, Seq<char>>
    decreases n,
{
    if n <= 0 {
        Ok(Seq::empty())
    } else {
        match merged_system(msgs, n - 1) {
            Err(e) => Err(e),
            Ok(m) => match content_of(msgs[n - 1].content, false) {
                Err(e) => Err(e),
                Ok(c) => {
                    let t = trim(c.text);
                    if t.len() == 0 {
                        Ok(m)
                    } else if m.len() == 0 {
                        Ok(t)
                    } else {
                        Ok(m.push('\n') + t)
                    }
                },
            },
        }
    }
}

/// The first `n` tool definitions, each on a line of its own.
pub open spec fn say_tools(p: PromptView, tools: Seq<JsonView>, n: int) -> PromptView
    decreases n,
{
    if n <= 0 {
        p
    } else {
        say_tools(p, tools, n - 1).say("\n"@).say(py_text(tools[n - 1]))
    }
}

/// The instruction line and an empty line, where there is an instruction.
pub open spec fn say_instruction(p: PromptView, instr: Seq<char>) -> PromptView {
    if instr.len() > 0 { p.say(instr).say("\n\n"@) } else { p }
}

/// The system block: instructions, tool definitions, the merged system messages.
pub open spec fn say_system(tools: Seq<JsonView>, merged: Seq<char>, instr: Seq<char>) -> PromptView {
    let p = empty_prompt();
    if tools.len() > 0 {
        let a = say_instruction(p.mark(Role::System).say("<|im_start|>system\n"@), instr);
        let b = a.say("# Tools\n\nYou have access to the following functions:\n\n<tools>"@);
        let c = say_tools(b, tools, tools.len() as int).say("\n</tools>"@).say(TOOL_INSTRUCTIONS@);
        let d = if merged.len() > 0 { c.say("\n\n"@).say(merged) } else { c };
        d.say("<|im_end|>\n"@)
    } else if merged.len() > 0 {
        let a = say_instruction(p.mark(Role::System).say("<|im_start|>system\n"@), instr);
        a.say(merged).say("<|im_end|>\n"@)
    } else if instr.len() > 0 {
        p.mark(Role::System).say("<|im_start|>system\n"@).say(instr).say("<|im_end|>\n"@)
    } else {
        p
    }
}

/// The arguments of a tool call: a mapping, or a JSON text of one (empty counts as none).
pub open spec fn call_arguments(f: JsonView, name: Seq<char>) -> Result<Seq<MemberView>, Seq<char>> {
    let not_object = "tool call arguments for "@ + debug_quoted(name) + " must be an object"@;
    match f.at("arguments"@) {
        None => Ok(Seq::empty()),
        Some(JsonView::Null) => Ok(Seq::empty()),
        Some(JsonView::Text(s)) => if trim(s).len() == 0 {
            Ok(Seq::empty())
        } else {
            match parse_result(encode_utf8(s)) {
                Ok(JsonView::Object(m)) => Ok(m),
                Ok(_) => Err(not_object),
                Err(e) => Err(
                    "tool call arguments for "@ + debug_quoted(name) + " are not valid JSON: "@ + e,
                ),
            }
        },
        Some(JsonView::Object(m)) => Ok(m),
        Some(_) => Err(not_object),
    }
}

/// The first `n` arguments of a call: strings as they are, other values as JSON.
pub open spec fn say_arguments(p: PromptView, m: Seq<MemberView>, n: int) -> PromptView
    decreases n,
{
    if n <= 0 {
        p
    } else {
        let q = say_arguments(p, m, n - 1).say("<parameter="@).say(m[n - 1].key).say(">\n"@);
        let r = match m[n - 1].value {
            JsonView::Text(s) => q.say(s),
            v => q.say(py_text(v)),
        };
        r.say("\n</parameter>\n"@)
    }
}

/// A tool call of an answer.
pub open spec fn say_call(p: PromptView, call: JsonView) -> Result<PromptView, Seq<char>> {
    let f = function_of(call);
    match f.at("name"@) {
        Some(JsonView::Text(name)) => match call_arguments(f, name) {
            Ok(m) => Ok(
                say_arguments(
                    p.say("<tool_call>\n<function="@).say(name).say(">\n"@),
                    m,
                    m.len() as int,
                ).say("</function>\n</tool_call>"@),
            ),
            Err(e) => Err(e),
        },
        _ => Err("Tool call is missing a function name."@),
    }
}

/// The first `n` tool calls of an answer with that content.
pub open spec fn say_calls(p: PromptView, calls: Seq<JsonView>, content: Seq<char>, n: int) -> Result<
    PromptView,
    Seq<char>,
>
    decreases n,
{
    if n <= 0 {
        Ok(p)
    } else {
        match say_calls(p, calls, content, n - 1) {
            Ok(q) => {
                let r = if n == 1 {
                    if content.len() > 0 { q.say("\n\n"@) } else { q }
                } else {
                    q.say("\n"@)
                };
                say_call(r, calls[n - 1])
            },
            Err(e) => Err(e),
        }
    }
}

/// Message `i` of the conversation, after the system block.
pub open spec fn say_turn(p: PromptView, msgs: Seq<MessageView>, i: int) -> Result<
    PromptView,
    Seq<char>,
> {
    let m = msgs[i];
    match content_of(m.content, m.role == "user"@) {
        Err(e) => Err(e),
        Ok(c) => {
            let content = trim(c.text);
            let q = p.with_images(c.images);
            if is_system(m) {
                Err("System message must be at the beginning."@)
            } else if m.role == "user"@ {
                Ok(
                    q.mark(Role::User).say("<|im_start|>user\n"@).say(content).say(
                        "<|im_end|>\n"@,
                    ),
                )
            } else if m.role == "assistant"@ {
                let a = q.mark(Role::Reasoning).say("<|im_start|>assistant\n<think>\n"@).say(
                    trim(m.reasoning),
                ).say("\n</think>"@).mark(Role::Assistant).say("\n\n"@).say(content);
                match say_calls(a, m.calls, content, m.calls.len() as int) {
                    Ok(d) => Ok(d.say("<|im_end|>\n"@)),
                    Err(e) => Err(e),
                }
            } else if m.role == "tool"@ {
                let a = if i == 0 || msgs[i - 1].role != "tool"@ {
                    q.mark(Role::Tool).say("<|im_start|>user"@)
                } else {
                    q
                };
                let d = a.say("\n<tool_response>\n"@).say(content).say("\n</tool_response>"@);
                if i + 1 == msgs.len() || msgs[i + 1].role != "tool"@ {
                    Ok(d.say("<|im_end|>\n"@))
                } else {
                    Ok(d)
                }
            } else {
                Err("Unexpected message role "@ + debug_quoted(m.role) + "."@)
            }
        },
    }
}

/// The messages from `from` up to `n`.
pub open spec fn say_turns(p: PromptView, msgs: Seq<MessageView>, from: int, n: int) -> Result<
    PromptView,
    Seq<char>,
>
    decreases n - from,
{
    if n <= from {
        Ok(p)
    } else {
        match say_turns(p, msgs, from, n - 1) {
            Ok(q) => say_turn(q, msgs, n - 1),
            Err(e) => Err(e),
        }
    }
}

/// The generation prompt: an open think block, or an empty one where thinking is off.
pub open spec fn say_opening(p: PromptView, mode: Thinking) -> PromptView {
    if mode == Thinking::Off {
        p.mark(Role::Assistant).say("<|im_start|>assistant\n"@).say("<think>\n\n</think>\n\n"@)
    } else {
        p.mark(Role::Reasoning).say("<|im_start|>assistant\n"@).say("<think>\n"@)
    }
}

/// The prompt of a conversation, or why it is refused.
pub open spec fn prompt_of(msgs: Seq<MessageView>, mode: Thinking, tools: Seq<JsonView>) -> Result<
    PromptView,
    Seq<char>,
> {
    if msgs.len() == 0 {
        Err("No messages provided."@)
    } else {
        let n = leading(msgs, 0);
        match merged_system(msgs, n) {
            Err(e) => Err(e),
            Ok(merged) => match say_turns(
                say_system(tools, merged, mode.instruction_text()),
                msgs,
                n,
                msgs.len() as int,
            ) {
                Err(e) => Err(e),
                Ok(p) => Ok(say_opening(p, mode)),
            },
        }
    }
}

/// A rendered prompt with the role of every byte: `segs` are `(byte offset, role)` starts, in
/// order, the first at 0; a segment runs to the next start (or the end of the text).
pub struct Rendered {
    pub text: String,
    pub thinking_open: bool,
    pub images: Vec<String>,
    pub segs: Vec<(usize, Role)>,
}

impl Rendered {
    /// The prompt.
    pub open spec fn view(&self) -> PromptView {
        PromptView {
            text: self.text@,
            segs: segs_view(self.segs@),
            images: texts(self.images@),
        }
    }

    fn start() -> (r: Rendered)
        ensures
            r.view() == empty_prompt(),
    {
        let r = Rendered {
            text: String::new(),
            thinking_open: false,
            images: Vec::new(),
            segs: Vec::new(),
        };
        assert(r.view() =~= empty_prompt());
        r
    }

    fn say(&mut self, t: &str)
        ensures
            final(self).view() == old(self).view().say(t@),
    {
        push_text(&mut self.text, t);
        assert(self.view() =~= old(self).view().say(t@));
    }

    fn say_chars(&mut self, t: &[char])
        ensures
            final(self).view() == old(self).view().say(t@),
    {
        let s = from_chars(t);
        self.say(s.as_str());
    }

    fn say_json(&mut self, v: &Json)
        ensures
            final(self).view() == old(self).view().say(py_text(v@)),
    {
        py_json(v, &mut self.text);
        assert(self.view() =~= old(self).view().say(py_text(v@)));
    }

    fn mark(&mut self, role: Role)
        ensures
            final(self).view() == old(self).view().mark(role),
    {
        let at: usize = self.text.as_str().as_bytes().len();
        self.segs.push((at, role));
        assert(self.view() =~= old(self).view().mark(role));
    }

    fn arguments(&mut self, m: &Vec<(String, Json)>)
        ensures
            final(self).view() == say_arguments(
                old(self).view(),
                members_view(m@),
                m@.len() as int,
            ),
    {
        let ghost p = self.view();
        let ghost view = members_view(m@);
        let n: usize = m.len();
        let mut i: usize = 0;
        while i < n
            invariant
                i <= n,
                n == m@.len(),
                view == members_view(m@),
                self.view() == say_arguments(p, view, i as int),
            decreases n - i,
        {
            assert(view[i as int] == (MemberView { key: m@[i as int].0@, value: m@[i as int].1@ }));
            self.say("<parameter=");
            self.say(m[i].0.as_str());
            self.say(">\n");
            match &m[i].1 {
                Json::Text(s) => {
                    self.say(s.as_str());
                },
                v => {
                    self.say_json(v);
                },
            }
            self.say("\n</parameter>\n");
            i = i + 1;
        }
    }

    /// The call of a mapping of arguments.
    fn call_with(&mut self, name: &str, m: &Vec<(String, Json)>)
        ensures
            final(self).view() == say_arguments(
                old(self).view().say("<tool_call>\n<function="@).say(name@).say(">\n"@),
                members_view(m@),
                m@.len() as int,
            ).say("</function>\n</tool_call>"@),
    {
        self.say("<tool_call>\n<function=");
        self.say(name);
        self.say(">\n");
        self.arguments(m);
        self.say("</function>\n</tool_call>");
    }

    fn call(&mut self, call: &Json) -> (r: Result<(), String>)
        ensures
            match say_call(old(self).view(), call@) {
                Ok(p) => r is Ok && final(self).view() == p,
                Err(e) => r matches Err(m) && m@ == e,
            },
    {
        let f = match call.get("function") {
            Some(f) => f,
            None => call,
        };
        let name = match f.get("name") {
            Some(Json::Text(t)) => t,
            _ => {
                return Err(owned("Tool call is missing a function name."));
            },
        };
        let none: Vec<(String, Json)> = Vec::new();
        assert(members_view(none@) =~= Seq::<MemberView>::empty());
        match f.get("arguments") {
            None => {
                self.call_with(name.as_str(), &none);
                Ok(())
            },
            Some(Json::Null) => {
                self.call_with(name.as_str(), &none);
                Ok(())
            },
            Some(Json::Text(s)) => {
                let c = to_chars(s.as_str());
                let t = trimmed(c.as_slice());
                if t.len() == 0 {
                    self.call_with(name.as_str(), &none);
                    return Ok(());
                }
                match parse_checked(s.as_str().as_bytes()) {
                    Ok(Json::Object(m)) => {
                        proof {
                            lemma_object_view(m);
                        }
                        self.call_with(name.as_str(), &m);
                        Ok(())
                    },
                    Ok(_) => Err(not_object(name.as_str())),
                    Err(e) => {
                        let mut msg = owned("tool call arguments for ");
                        let d = debug_text(name.as_str());
                        push_text(&mut msg, d.as_str());
                        push_text(&mut msg, " are not valid JSON: ");
                        push_text(&mut msg, e.as_str());
                        Err(msg)
                    },
                }
            },
            Some(Json::Object(m)) => {
                proof {
                    lemma_object_view(*m);
                }
                self.call_with(name.as_str(), m);
                Ok(())
            },
            Some(_) => Err(not_object(name.as_str())),
        }
    }

    fn calls(&mut self, calls: &Vec<Json>, content: &[char]) -> (r: Result<(), String>)
        ensures
            match say_calls(old(self).view(), items_view(calls@), content@, calls@.len() as int) {
                Ok(p) => r is Ok && final(self).view() == p,
                Err(e) => r matches Err(m) && m@ == e,
            },
    {
        let ghost p = self.view();
        let ghost view = items_view(calls@);
        let n: usize = calls.len();
        let mut i: usize = 0;
        while i < n
            invariant
                i <= n,
                n == calls@.len(),
                view == items_view(calls@),
                p == old(self).view(),
                say_calls(p, view, content@, i as int) == Ok::<PromptView, Seq<char>>(self.view()),
            decreases n - i,
        {
            assert(view[i as int] == calls@[i as int]@);
            if i == 0 {
                if content.len() > 0 {
                    self.say("\n\n");
                }
            } else {
                self.say("\n");
            }
            if let Err(e) = self.call(&calls[i]) {
                proof {
                    lemma_calls_error(p, view, content@, i + 1, n as int);
                }
                return Err(e);
            }
            i = i + 1;
        }
        Ok(())
    }

    fn turn(&mut self, msgs: &Vec<Message>, i: usize) -> (r: Result<(), String>)
        requires
            i < msgs@.len(),
        ensures
            match say_turn(old(self).view(), messages_view(msgs@), i as int) {
                Ok(p) => r is Ok && final(self).view() == p,
                Err(e) => r matches Err(m) && m@ == e,
            },
    {
        let ghost mv = messages_view(msgs@);
        let m = &msgs[i];
        assert(mv[i as int] == m@);
        let user: bool = str_eq(m.role.as_str(), "user");
        let raw = match render_content(&m.content, &mut self.images, user) {
            Ok(t) => t,
            Err(e) => {
                return Err(e);
            },
        };
        let ghost c = content_of(m@.content, user)->Ok_0;
        assert(self.view() =~= old(self).view().with_images(c.images));
        let raw = to_chars(raw.as_str());
        let content = trimmed(raw.as_slice());
        let role = m.role.as_str();
        if str_eq(role, "system") || str_eq(role, "developer") {
            return Err(owned("System message must be at the beginning."));
        }
        if user {
            self.mark(Role::User);
            self.say("<|im_start|>user\n");
            self.say_chars(content.as_slice());
            self.say("<|im_end|>\n");
            return Ok(());
        }
        if str_eq(role, "assistant") {
            let reasoning: Vec<char> = match &m.reasoning_content {
                Some(t) => to_chars(t.as_str()),
                None => Vec::new(),
            };
            assert(reasoning@ =~= m@.reasoning);
            let reasoning = trimmed(reasoning.as_slice());
            self.mark(Role::Reasoning);
            self.say("<|im_start|>assistant\n<think>\n");
            self.say_chars(reasoning.as_slice());
            self.say("\n</think>");
            self.mark(Role::Assistant);
            self.say("\n\n");
            self.say_chars(content.as_slice());
            match &m.tool_calls {
                Some(v) => {
                    if let Err(e) = self.calls(v, content.as_slice()) {
                        return Err(e);
                    }
                },
                None => {},
            }
            self.say("<|im_end|>\n");
            return Ok(());
        }
        if str_eq(role, "tool") {
            let total: usize = msgs.len();
            if i > 0 {
                assert(mv[i - 1] == msgs@[i - 1]@);
            }
            if i + 1 < total {
                assert(mv[i + 1] == msgs@[i + 1]@);
            }
            if i == 0 || !str_eq(msgs[i - 1].role.as_str(), "tool") {
                self.mark(Role::Tool);
                self.say("<|im_start|>user");
            }
            self.say("\n<tool_response>\n");
            self.say_chars(content.as_slice());
            self.say("\n</tool_response>");
            if i + 1 == total || !str_eq(msgs[i + 1].role.as_str(), "tool") {
                self.say("<|im_end|>\n");
            }
            return Ok(());
        }
        let mut e = owned("Unexpected message role ");
        let d = debug_text(role);
        push_text(&mut e, d.as_str());
        push_text(&mut e, ".");
        Err(e)
    }

    fn system(&mut self, tools: &Vec<Json>, merged: &str, instr: &str)
        requires
            old(self).view() == empty_prompt(),
        ensures
            final(self).view() == say_system(items_view(tools@), merged@, instr@),
    {
        let n: usize = tools.len();
        if n > 0 {
            self.mark(Role::System);
            self.say("<|im_start|>system\n");
            if !instr.is_empty() {
                self.say(instr);
                self.say("\n\n");
            }
            self.say("# Tools\n\nYou have access to the following functions:\n\n<tools>");
            let ghost p = self.view();
            let ghost view = items_view(tools@);
            let mut i: usize = 0;
            while i < n
                invariant
                    i <= n,
                    n == tools@.len(),
                    view == items_view(tools@),
                    self.view() == say_tools(p, view, i as int),
                decreases n - i,
            {
                assert(view[i as int] == tools@[i as int]@);
                self.say("\n");
                self.say_json(&tools[i]);
                i = i + 1;
            }
            self.say("\n</tools>");
            self.say(TOOL_INSTRUCTIONS);
            if !merged.is_empty() {
                self.say("\n\n");
                self.say(merged);
            }
            self.say("<|im_end|>\n");
        } else if !merged.is_empty() {
            self.mark(Role::System);
            self.say("<|im_start|>system\n");
            if !instr.is_empty() {
                self.say(instr);
                self.say("\n\n");
            }
            self.say(merged);
            self.say("<|im_end|>\n");
        } else if !instr.is_empty() {
            self.mark(Role::System);
            self.say("<|im_start|>system\n");
            self.say(instr);
            self.say("<|im_end|>\n");
        }
    }
}

fn not_object(name: &str) -> (s: String)
    ensures
        s@ == "tool call arguments for "@ + debug_quoted(name@) + " must be an object"@,
{
    let mut msg = owned("tool call arguments for ");
    let d = debug_text(name);
    push_text(&mut msg, d.as_str());
    push_text(&mut msg, " must be an object");
    msg
}

proof fn lemma_calls_error(p: PromptView, calls: Seq<JsonView>, content: Seq<char>, n: int, m: int)
    requires
        n <= m,
        say_calls(p, calls, content, n) is Err,
    ensures
        say_calls(p, calls, content, m) == say_calls(p, calls, content, n),
    decreases m - n,
{
    if n < m {
        lemma_calls_error(p, calls, content, n, m - 1);
    }
}

proof fn lemma_turns_error(p: PromptView, msgs: Seq<MessageView>, from: int, n: int, m: int)
    requires
        n <= m,
        say_turns(p, msgs, from, n) is Err,
    ensures
        say_turns(p, msgs, from, m) == say_turns(p, msgs, from, n),
    decreases m - n,
{
    if n < m {
        lemma_turns_error(p, msgs, from, n, m - 1);
    }
}

proof fn lemma_merged_error(msgs: Seq<MessageView>, n: int, m: int)
    requires
        n <= m,
        merged_system(msgs, n) is Err,
    ensures
        merged_system(msgs, m) == merged_system(msgs, n),
    decreases m - n,
{
    if n < m {
        lemma_merged_error(msgs, n, m - 1);
    }
}

proof fn lemma_leading(msgs: Seq<MessageView>, i: int)
    requires
        0 <= i <= msgs.len(),
    ensures
        i <= leading(msgs, i) <= msgs.len(),
    decreases msgs.len() - i,
{
    if i < msgs.len() && is_system(msgs[i]) {
        lemma_leading(msgs, i + 1);
    }
}

/// Roles of the rendered prompt, for the prefix cache: the merged system block (with the
/// injected instructions and tool definitions) is `System`; a `<tool_response>` block with its
/// wrapper is `Tool`; an assistant message is `Reasoning` from `<|im_start|>assistant` through
/// `</think>` and `Assistant` after it; the generation tail is `Reasoning` when thinking is on.
pub fn render_prompt_spans(msgs: &Vec<Message>, mode: Thinking, tools: &Vec<Json>) -> (r: Result<
    Rendered,
    String,
>)
    ensures
        match prompt_of(messages_view(msgs@), mode, items_view(tools@)) {
            Ok(p) => r matches Ok(x) && x.view() == p && x.thinking_open == (mode != Thinking::Off),
            Err(e) => r matches Err(m) && m@ == e,
        },
{
    let ghost mv = messages_view(msgs@);
    let n: usize = msgs.len();
    if n == 0 {
        return Err(owned("No messages provided."));
    }
    let mut out = Rendered::start();
    let mut merged = String::new();
    let mut num_sys: usize = 0;
    assert(merged@ =~= Seq::<char>::empty());
    proof {
        lemma_leading(mv, 0);
    }
    while num_sys < n && (str_eq(msgs[num_sys].role.as_str(), "system") || str_eq(
        msgs[num_sys].role.as_str(),
        "developer",
    ))
        invariant
            num_sys <= n,
            n == msgs@.len(),
            n > 0,
            mv == messages_view(msgs@),
            leading(mv, 0) == leading(mv, num_sys as int),
            leading(mv, 0) <= n,
            merged_system(mv, num_sys as int) == Ok::<Seq<char>, Seq<char>>(merged@),
            out.view() == empty_prompt(),
        decreases n - num_sys,
    {
        assert(mv[num_sys as int] == msgs@[num_sys as int]@);
        proof {
            lemma_leading(mv, num_sys + 1);
        }
        let mut none: Vec<String> = Vec::new();
        let c = match render_content(&msgs[num_sys].content, &mut none, false) {
            Ok(c) => c,
            Err(e) => {
                proof {
                    lemma_merged_error(mv, num_sys + 1, leading(mv, 0));
                }
                return Err(e);
            },
        };
        let c = to_chars(c.as_str());
        let t = trimmed(c.as_slice());
        if t.len() > 0 {
            if !merged.as_str().is_empty() {
                merged.push('\n');
            }
            let ghost before = merged@;
            let piece = from_chars(t.as_slice());
            push_text(&mut merged, piece.as_str());
            assert(before.len() == 0 ==> merged@ =~= t@);
        }
        num_sys = num_sys + 1;
    }
    if num_sys < n {
        assert(mv[num_sys as int] == msgs@[num_sys as int]@);
    }
    assert(leading(mv, 0) == num_sys);
    out.system(tools, merged.as_str(), mode.instructions());
    let ghost p = out.view();
    let mut i: usize = num_sys;
    while i < n
        invariant
            num_sys <= i <= n,
            n == msgs@.len(),
            n > 0,
            mv == messages_view(msgs@),
            leading(mv, 0) == num_sys,
            merged_system(mv, num_sys as int) == Ok::<Seq<char>, Seq<char>>(merged@),
            p == say_system(items_view(tools@), merged@, mode.instruction_text()),
            say_turns(p, mv, num_sys as int, i as int) == Ok::<PromptView, Seq<char>>(out.view()),
        decreases n - i,
    {
        if let Err(e) = out.turn(msgs, i) {
            proof {
                lemma_turns_error(p, mv, num_sys as int, i + 1, n as int);
            }
            return Err(e);
        }
        i = i + 1;
    }
    if mode == Thinking::Off {
        out.mark(Role::Assistant);
        out.say("<|im_start|>assistant\n");
        out.say("<think>\n\n</think>\n\n");
        out.thinking_open = false;
    } else {
        out.mark(Role::Reasoning);
        out.say("<|im_start|>assistant\n");
        out.say("<think>\n");
        out.thinking_open = true;
    }
    Ok(out)
}

/// `render_prompt_spans` without the segments: the prompt, whether the generation starts inside
/// an open `<think>` block, and the image sources in prompt order (one placeholder each).
pub fn render_prompt_images(msgs: &Vec<Message>, mode: Thinking, tools: &Vec<Json>) -> (r: Result<
    (String, bool, Vec<String>),
    String,
>)
    ensures
        match prompt_of(messages_view(msgs@), mode, items_view(tools@)) {
            Ok(p) => r matches Ok((t, open, images)) && t@ == p.text && texts(images@) == p.images
                && open == (mode != Thinking::Off),
            Err(e) => r matches Err(m) && m@ == e,
        },
{
    match render_prompt_spans(msgs, mode, tools) {
        Ok(r) => Ok((r.text, r.thinking_open, r.images)),
        Err(e) => Err(e),
    }
}

/// Apply the chat template with `add_generation_prompt=true`, for text-only conversations. The
/// prompt text and whether the generation starts inside an open `<think>` block.
pub fn render_prompt(msgs: &Vec<Message>, mode: Thinking, tools: &Vec<Json>) -> (r: Result<
    (String, bool),
    String,
>)
    ensures
        match prompt_of(messages_view(msgs@), mode, items_view(tools@)) {
            Ok(p) => if p.images.len() > 0 {
                r matches Err(m) && m@ == "image content needs the vision encoder (--vision)"@
            } else {
                r matches Ok((t, open)) && t@ == p.text && open == (mode != Thinking::Off)
            },
            Err(e) => r matches Err(m) && m@ == e,
        },
{
    match render_prompt_images(msgs, mode, tools) {
        Ok((t, open, images)) => {
            assert(texts(images@).len() == images@.len());
            if images.len() > 0 {
                Err(owned("image content needs the vision encoder (--vision)"))
            } else {
                Ok((t, open))
            }
        },
        Err(e) => Err(e),
    }
}

/// The encoding of two texts one after the other is longer than that of the first, unless the second
/// is empty.
proof fn lemma_encoding_grows(a: Seq<char>, b: Seq<char>)
    ensures
        encode_utf8(a).len() <= encode_utf8(a + b).len(),
        b.len() > 0 ==> encode_utf8(a).len() < encode_utf8(a + b).len(),
{
    law_byte_len(a);
    law_byte_len(a + b);
    lemma_byte_len_concat(a, b);
    lemma_byte_len_bounds(b);
}

/// Segments that start at byte 0, each behind the one before it and before the end of the text; no
/// text before the first.
pub open spec fn well_marked(p: PromptView) -> bool {
    &&& p.segs.len() == 0 ==> p.text.len() == 0
    &&& p.segs.len() > 0 ==> p.segs[0].at == 0
    &&& forall|i: int| #![trigger p.segs[i]]
        0 <= i < p.segs.len() ==> p.segs[i].at < encode_utf8(p.text).len()
    &&& forall|i: int, j: int| #![trigger p.segs[i], p.segs[j]]
        0 <= i < j < p.segs.len() ==> p.segs[i].at < p.segs[j].at
}

/// A segment that begins with some text.
proof fn lemma_mark_say(p: PromptView, role: Role, t: Seq<char>)
    requires
        well_marked(p),
        t.len() > 0,
    ensures
        well_marked(p.mark(role).say(t)),
        p.mark(role).say(t).segs.len() > 0,
{
    lemma_encoding_grows(p.text, t);
    if p.segs.len() == 0 {
        law_byte_len(p.text);
    }
}

proof fn lemma_say(p: PromptView, t: Seq<char>)
    requires
        well_marked(p),
        p.segs.len() > 0,
    ensures
        well_marked(p.say(t)),
        p.say(t).segs.len() > 0,
{
    lemma_encoding_grows(p.text, t);
}

proof fn lemma_say_tools(p: PromptView, tools: Seq<JsonView>, n: int)
    requires
        well_marked(p),
        p.segs.len() > 0,
    ensures
        well_marked(say_tools(p, tools, n)),
        say_tools(p, tools, n).segs.len() > 0,
    decreases n,
{
    if n > 0 {
        lemma_say_tools(p, tools, n - 1);
        let q = say_tools(p, tools, n - 1);
        lemma_say(q, "\n"@);
        lemma_say(q.say("\n"@), py_text(tools[n - 1]));
    }
}

proof fn lemma_say_arguments(p: PromptView, m: Seq<MemberView>, n: int)
    requires
        well_marked(p),
        p.segs.len() > 0,
    ensures
        well_marked(say_arguments(p, m, n)),
        say_arguments(p, m, n).segs.len() > 0,
    decreases n,
{
    if n > 0 {
        lemma_say_arguments(p, m, n - 1);
        let a = say_arguments(p, m, n - 1);
        lemma_say(a, "<parameter="@);
        let b = a.say("<parameter="@);
        lemma_say(b, m[n - 1].key);
        let c = b.say(m[n - 1].key);
        lemma_say(c, ">\n"@);
        let q = c.say(">\n"@);
        let r = match m[n - 1].value {
            JsonView::Text(s) => {
                lemma_say(q, s);
                q.say(s)
            },
            v => {
                lemma_say(q, py_text(v));
                q.say(py_text(v))
            },
        };
        lemma_say(r, "\n</parameter>\n"@);
    }
}

proof fn lemma_say_calls(p: PromptView, calls: Seq<JsonView>, content: Seq<char>, n: int)
    requires
        well_marked(p),
        p.segs.len() > 0,
    ensures
        say_calls(p, calls, content, n) matches Ok(q) ==> well_marked(q) && q.segs.len() > 0,
    decreases n,
{
    if n > 0 {
        lemma_say_calls(p, calls, content, n - 1);
        if let Ok(q) = say_calls(p, calls, content, n - 1) {
            lemma_say(q, "\n\n"@);
            lemma_say(q, "\n"@);
            let r = if n == 1 {
                if content.len() > 0 { q.say("\n\n"@) } else { q }
            } else {
                q.say("\n"@)
            };
            let f = function_of(calls[n - 1]);
            if let Some(JsonView::Text(name)) = f.at("name"@) {
                if let Ok(m) = call_arguments(f, name) {
                    lemma_say(r, "<tool_call>\n<function="@);
                    let a = r.say("<tool_call>\n<function="@);
                    lemma_say(a, name);
                    lemma_say(a.say(name), ">\n"@);
                    let b = a.say(name).say(">\n"@);
                    lemma_say_arguments(b, m, m.len() as int);
                    lemma_say(say_arguments(b, m, m.len() as int), "</function>\n</tool_call>"@);
                }
            }
        }
    }
}

proof fn lemma_say_turn(p: PromptView, msgs: Seq<MessageView>, from: int, i: int)
    requires
        well_marked(p),
        0 <= from <= i < msgs.len(),
        from > 0 ==> is_system(msgs[from - 1]),
        i > from ==> p.segs.len() > 0,
    ensures
        say_turn(p, msgs, i) matches Ok(q) ==> well_marked(q) && q.segs.len() > 0,
{
    let m = msgs[i];
    if let Ok(c) = content_of(m.content, m.role == "user"@) {
        let content = trim(c.text);
        let q = p.with_images(c.images);
        assert(well_marked(q));
        if m.role == "user"@ {
            reveal_strlit("<|im_start|>user\n");
            lemma_mark_say(q, Role::User, "<|im_start|>user\n"@);
            let a = q.mark(Role::User);
            lemma_say(a.say("<|im_start|>user\n"@), content);
            lemma_say(a.say("<|im_start|>user\n"@).say(content), "<|im_end|>\n"@);
        } else if m.role == "assistant"@ {
            reveal_strlit("<|im_start|>assistant\n<think>\n");
            reveal_strlit("\n\n");
            lemma_mark_say(q, Role::Reasoning, "<|im_start|>assistant\n<think>\n"@);
            let a = q.mark(Role::Reasoning);
            let b = a.say("<|im_start|>assistant\n<think>\n"@);
            lemma_say(b, trim(m.reasoning));
            lemma_say(b.say(trim(m.reasoning)), "\n</think>"@);
            let d = b.say(trim(m.reasoning)).say("\n</think>"@);
            lemma_mark_say(d, Role::Assistant, "\n\n"@);
            let e = d.mark(Role::Assistant).say("\n\n"@);
            lemma_say(e, content);
            lemma_say_calls(e.say(content), m.calls, content, m.calls.len() as int);
            if let Ok(z) = say_calls(e.say(content), m.calls, content, m.calls.len() as int) {
                lemma_say(z, "<|im_end|>\n"@);
            }
        } else if m.role == "tool"@ {
            let first = i == 0 || msgs[i - 1].role != "tool"@;
            if first {
                reveal_strlit("<|im_start|>user");
                lemma_mark_say(q, Role::Tool, "<|im_start|>user"@);
            } else {
                assert(i > from) by {
                    if i == from {
                        lemma_roles_differ();
                    }
                }
            }
            let a = if first { q.mark(Role::Tool).say("<|im_start|>user"@) } else { q };
            lemma_say(a, "\n<tool_response>\n"@);
            let b = a.say("\n<tool_response>\n"@);
            lemma_say(b, content);
            lemma_say(b.say(content), "\n</tool_response>"@);
            lemma_say(b.say(content).say("\n</tool_response>"@), "<|im_end|>\n"@);
        }
    }
}

proof fn lemma_roles_differ()
    ensures
        "tool"@ != "system"@,
        "tool"@ != "developer"@,
{
    reveal_strlit("tool");
    reveal_strlit("system");
    reveal_strlit("developer");
    assert("tool"@.len() == 4 && "system"@.len() == 6 && "developer"@.len() == 9);
}

proof fn lemma_say_turns(p: PromptView, msgs: Seq<MessageView>, from: int, n: int)
    requires
        well_marked(p),
        0 <= from <= n <= msgs.len(),
        from > 0 ==> is_system(msgs[from - 1]),
    ensures
        say_turns(p, msgs, from, n) matches Ok(q) ==> well_marked(q) && (n > from ==> q.segs.len() > 0),
    decreases n,
{
    if n > from {
        lemma_say_turns(p, msgs, from, n - 1);
        if let Ok(q) = say_turns(p, msgs, from, n - 1) {
            lemma_say_turn(q, msgs, from, n - 1);
        }
    }
}

proof fn lemma_say_system(tools: Seq<JsonView>, merged: Seq<char>, instr: Seq<char>)
    ensures
        well_marked(say_system(tools, merged, instr)),
{
    let p = empty_prompt();
    reveal_strlit("<|im_start|>system\n");
    lemma_mark_say(p, Role::System, "<|im_start|>system\n"@);
    let a = p.mark(Role::System);
    let b = a.say("<|im_start|>system\n"@);
    lemma_say(b, instr);
    lemma_say(b.say(instr), "\n\n"@);
    lemma_say(b.say(instr), "<|im_end|>\n"@);
    let c = say_instruction(b, instr);
    if tools.len() > 0 {
        let t = "# Tools\n\nYou have access to the following functions:\n\n<tools>"@;
        lemma_say(c, t);
        lemma_say_tools(c.say(t), tools, tools.len() as int);
        let d = say_tools(c.say(t), tools, tools.len() as int);
        lemma_say(d, "\n</tools>"@);
        lemma_say(d.say("\n</tools>"@), TOOL_INSTRUCTIONS@);
        let e = d.say("\n</tools>"@).say(TOOL_INSTRUCTIONS@);
        lemma_say(e, "\n\n"@);
        lemma_say(e.say("\n\n"@), merged);
        lemma_say(e.say("\n\n"@).say(merged), "<|im_end|>\n"@);
        lemma_say(e, "<|im_end|>\n"@);
    } else if merged.len() > 0 {
        lemma_say(c, merged);
        lemma_say(c.say(merged), "<|im_end|>\n"@);
    }
}

proof fn lemma_leading_ends(msgs: Seq<MessageView>, i: int)
    requires
        0 <= i <= msgs.len(),
        i > 0 ==> is_system(msgs[i - 1]),
    ensures
        i <= leading(msgs, i) <= msgs.len(),
        leading(msgs, i) > 0 ==> is_system(msgs[leading(msgs, i) - 1]),
    decreases msgs.len() - i,
{
    if i < msgs.len() && is_system(msgs[i]) {
        lemma_leading_ends(msgs, i + 1);
    }
}

/// Every byte of a prompt has a role: the segments start at byte 0, come in order, and none is
/// empty.
pub proof fn law_prompt_is_well_marked(
    msgs: Seq<MessageView>,
    mode: Thinking,
    tools: Seq<JsonView>,
)
    ensures
        prompt_of(msgs, mode, tools) matches Ok(p) ==> well_marked(p) && p.segs.len() > 0,
{
    if prompt_of(msgs, mode, tools) is Ok {
        let n = leading(msgs, 0);
        let merged = merged_system(msgs, n)->Ok_0;
        lemma_leading_ends(msgs, 0);
        let s = say_system(tools, merged, mode.instruction_text());
        lemma_say_system(tools, merged, mode.instruction_text());
        lemma_say_turns(s, msgs, n, msgs.len() as int);
        let p = say_turns(s, msgs, n, msgs.len() as int)->Ok_0;
        reveal_strlit("<|im_start|>assistant\n");
        lemma_mark_say(p, Role::Assistant, "<|im_start|>assistant\n"@);
        lemma_mark_say(p, Role::Reasoning, "<|im_start|>assistant\n"@);
        let a = p.mark(Role::Assistant);
        let b = p.mark(Role::Reasoning);
        lemma_say(a.say("<|im_start|>assistant\n"@), "<think>\n\n</think>\n\n"@);
        lemma_say(b.say("<|im_start|>assistant\n"@), "<think>\n"@);
    }
}

/// The names of the efforts: the template's own, `high` for the highest, and four that turn thinking
/// off; there are no others.
pub proof fn law_effort_names(s: Seq<char>)
    ensures
        effort_mode("xhigh"@) == Some(Thinking::XHigh),
        effort_mode("high"@) == Some(Thinking::XHigh),
        effort_mode("medium"@) == Some(Thinking::Medium),
        effort_mode("low"@) == Some(Thinking::Low),
        effort_mode("none"@) == Some(Thinking::Off),
        effort_mode("minimal"@) == Some(Thinking::Off),
        effort_mode("off"@) == Some(Thinking::Off),
        effort_mode("false"@) == Some(Thinking::Off),
        effort_mode(s) is Some ==> s == "xhigh"@ || s == "high"@ || s == "medium"@ || s == "low"@ || s
            == "none"@ || s == "minimal"@ || s == "off"@ || s == "false"@,
{
    reveal_strlit("xhigh");
    reveal_strlit("high");
    reveal_strlit("medium");
    reveal_strlit("low");
    reveal_strlit("none");
    reveal_strlit("minimal");
    reveal_strlit("off");
    reveal_strlit("false");
    assert("xhigh"@[0] == 'x' && "high"@[0] == 'h' && "medium"@[0] == 'm' && "low"@[0] == 'l'
        && "none"@[0] == 'n' && "minimal"@[0] == 'm' && "off"@[0] == 'o' && "false"@[0] == 'f');
    assert("medium"@.len() == 6 && "minimal"@.len() == 7);
}

/// Capitals of ASCII count as small letters, and nothing else is changed.
pub proof fn law_capitals_count_as_small_letters(s: Seq<char>, i: int)
    requires
        0 <= i < s.len(),
    ensures
        lower_text(s).len() == s.len(),
        'A' <= s[i] <= 'Z' ==> lower_text(s)[i] as int == s[i] as int + 32,
        !('A' <= s[i] <= 'Z') ==> lower_text(s)[i] == s[i],
{
}

/// Whether the template arguments say anything of thinking.
pub open spec fn kwargs_say<F>(r: ChatRequest<F>) -> bool {
    r.chat_template_kwargs matches Some(k) && (k.enable_thinking is Some || k.reasoning_effort is Some)
}

/// A switch in the template arguments decides, whatever else the request says: off is off, and on is
/// never off.
pub proof fn law_template_switch_decides<F>(r: ChatRequest<F>, default: Thinking, on: bool)
    requires
        r.chat_template_kwargs matches Some(k) && k.enable_thinking == Some(on),
    ensures
        !on ==> thinking_mode(r, default) == Thinking::Off,
        on ==> thinking_mode(r, default) != Thinking::Off,
{
}

/// An effort in the template arguments decides where they have no switch, and is the effort of a
/// switch that turns thinking on.
pub proof fn law_template_effort_decides<F>(r: ChatRequest<F>, default: Thinking, e: String, m: Thinking)
    requires
        r.chat_template_kwargs matches Some(k) && k.reasoning_effort == Some(e) && k.enable_thinking
            != Some(false),
        effort_mode(lower_text(e@)) == Some(m),
    ensures
        m != Thinking::Off ==> thinking_mode(r, default) == m,
        (r.chat_template_kwargs->0).enable_thinking is None ==> thinking_mode(r, default) == m,
{
    assert(efforts(r)[0] == Some(e@));
}

/// The request's own switch decides where the template arguments say nothing.
pub proof fn law_request_switch_decides<F>(r: ChatRequest<F>, default: Thinking, on: bool)
    requires
        !kwargs_say(r),
        r.enable_thinking == Some(on),
    ensures
        !on ==> thinking_mode(r, default) == Thinking::Off,
        on ==> thinking_mode(r, default) != Thinking::Off,
{
    assert(efforts(r)[0] is None);
    assert(switches(r)[0] is None);
}

/// The switch in `reasoning` decides where neither the template arguments nor the request's own
/// switch say anything.
pub proof fn law_nested_switch_decides<F>(r: ChatRequest<F>, default: Thinking, on: bool)
    requires
        !kwargs_say(r),
        r.enable_thinking is None,
        r.reasoning matches Some(p) && p.enabled == Some(on),
    ensures
        !on ==> thinking_mode(r, default) == Thinking::Off,
        on ==> thinking_mode(r, default) != Thinking::Off,
{
    assert(efforts(r)[0] is None);
    assert(switches(r)[0] is None);
}

/// Where no switch turns it off, the effort in `reasoning` counts before the request's own, and that
/// before the server's default; a request that says nothing gets the default.
pub proof fn law_first_effort_counts<F>(r: ChatRequest<F>, default: Thinking)
    requires
        !kwargs_say(r),
        r.enable_thinking is None,
        r.reasoning matches Some(p) ==> p.enabled is None,
    ensures
        r.reasoning matches Some(p) ==> (p.effort matches Some(e) ==> (effort_mode(lower_text(e@)) matches Some(
            m,
        ) ==> thinking_mode(r, default) == m)),
        (r.reasoning matches Some(p) ==> p.effort is None) ==> {
            &&& r.reasoning_effort matches Some(e) ==> (effort_mode(lower_text(e@)) matches Some(m)
                ==> thinking_mode(r, default) == m)
            &&& r.reasoning_effort is None ==> thinking_mode(r, default) == default
        },
{
    assert(efforts(r)[0] is None);
    assert(switches(r)[0] is None);
    assert(switches(r)[1] is None);
    assert(switches(r)[2] is None);
}

/// Thinking that is switched on has the effort that the request gives, else the default's; and the
/// highest where that would be none.
pub proof fn law_switched_on_effort<F>(r: ChatRequest<F>, default: Thinking)
    requires
        !kwargs_say(r),
        r.enable_thinking == Some(true),
    ensures
        r.reasoning is None && r.reasoning_effort is None ==> thinking_mode(r, default) == if default
            == Thinking::Off {
            Thinking::XHigh
        } else {
            default
        },
        r.reasoning is None ==> (r.reasoning_effort matches Some(e) ==> (effort_mode(lower_text(e@)) matches Some(
            m,
        ) ==> thinking_mode(r, default) == if m == Thinking::Off {
            Thinking::XHigh
        } else {
            m
        })),
{
    assert(efforts(r)[0] is None);
    assert(switches(r)[0] is None);
}

/// A request is refused for its efforts exactly where one of them has an unknown name.
pub proof fn law_unknown_effort_is_refused<F>(r: ChatRequest<F>)
    ensures
        bad_effort(efforts(r)[0]) <==> (r.chat_template_kwargs matches Some(k) && (k.reasoning_effort matches Some(
            e,
        ) && effort_mode(lower_text(e@)) is None)),
        bad_effort(efforts(r)[1]) <==> (r.reasoning matches Some(p) && (p.effort matches Some(e)
            && effort_mode(lower_text(e@)) is None)),
        bad_effort(efforts(r)[2]) <==> (r.reasoning_effort matches Some(e) && effort_mode(lower_text(e@)) is None),
        efforts(r).len() == 3,
{
}

} // verus!
