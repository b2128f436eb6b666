//! Function calling in the model's own format. The template renders tools as JSON inside a
//! `<tools>` block and tool calls as
//! `<tool_call>\n<function=NAME>\n<parameter=K>\nVALUE\n</parameter>\n</function>\n</tool_call>`;
//! this module renders JSON the way the template's `tojson` does (Python `json.dumps` defaults,
//! as in transformers) and parses the model's calls back into OpenAI `tool_calls`, typing each
//! parameter by the tool's JSON schema (a non-string parameter is parsed as JSON).
use crate::json::{
    items_view, json_text, lemma_array_view, lemma_object_view, members_view, parse, parsed,
    push_json, view_of, Json, JsonView, MemberView,
};
use crate::text::{
    chars_eq, copy_range, find, find_from, found_at, from_chars, leading_white, matches_at, owned,
    str_eq, to_chars, trim, trim_end, trim_end_len, trim_start, trimmed,
};
use vstd::prelude::*;
use vstd::utf8::encode_utf8;

verus! {

/// `json.dumps(v, ensure_ascii=False)`: `", "` and `": "` separators, keys in the given order.
pub open spec fn py_text(v: JsonView) -> Seq<char> {
    json_text(v, ", "@, ": "@)
}

/// Append a value as `json.dumps(v, ensure_ascii=False)` writes it.
pub fn py_json(v: &Json, out: &mut String)
    ensures
        final(out)@ == old(out)@ + py_text(v@),
{
    push_json(v, ", ", ": ", out);
}

/// What the parser needs from a tool definition: the parameter types.
#[derive(Debug)]
pub struct ToolSpec {
    pub name: String,
    /// Parameter name and type; an empty type is decided by the value.
    pub param_types: Vec<(String, String)>,
}

/// A parameter and its type.
#[verifier::ext_equal]
pub struct TypeView {
    pub key: Seq<char>,
    pub ty: Seq<char>,
}

#[verifier::ext_equal]
pub struct ToolView {
    pub name: Seq<char>,
    pub types: Seq<TypeView>,
}

pub open spec fn types_view(v: Seq<(String, String)>) -> Seq<TypeView> {
    Seq::new(v.len(), |i: int| TypeView { key: v[i].0@, ty: v[i].1@ })
}

impl View for ToolSpec {
    type V = ToolView;

    open spec fn view(&self) -> ToolView {
        ToolView { name: self.name@, types: types_view(self.param_types@) }
    }
}

/// The tools of a list.
pub open spec fn tools_view(v: Seq<ToolSpec>) -> Seq<ToolView> {
    Seq::new(v.len(), |i: int| v[i]@)
}

/// The first text other than `null` among the items from `i` on, `string` without one.
pub open spec fn first_type(a: Seq<JsonView>, i: int) -> Seq<char>
    decreases a.len() - i,
{
    if i < 0 || i >= a.len() {
        "string"@
    } else {
        match a[i] {
            JsonView::Text(t) => if t != "null"@ { t } else { first_type(a, i + 1) },
            _ => first_type(a, i + 1),
        }
    }
}

/// The type of a parameter by its schema; empty where the schema gives none.
pub open spec fn schema_type(p: JsonView) -> Seq<char> {
    match p.at("type"@) {
        Some(JsonView::Text(t)) => t,
        Some(JsonView::Array(ts)) => first_type(ts, 0),
        _ => Seq::empty(),
    }
}

/// The members of `parameters.properties` of a function.
pub open spec fn properties(f: JsonView) -> Seq<MemberView> {
    match f.at("parameters"@) {
        Some(p) => match p.at("properties"@) {
            Some(JsonView::Object(m)) => m,
            _ => Seq::empty(),
        },
        None => Seq::empty(),
    }
}

/// The function inside a tool object, or the object itself where it is a bare function.
pub open spec fn function_of(v: JsonView) -> JsonView {
    match v.at("function"@) {
        Some(f) => f,
        None => v,
    }
}

/// The tool that a JSON value defines, where it names one.
pub open spec fn tool_of(v: JsonView) -> Option<ToolView> {
    let f = function_of(v);
    match f.at("name"@) {
        Some(JsonView::Text(name)) => {
            let props = properties(f);
            Some(
                ToolView {
                    name,
                    types: Seq::new(
                        props.len(),
                        |i: int| TypeView { key: props[i].key, ty: schema_type(props[i].value) },
                    ),
                },
            )
        },
        _ => None,
    }
}

/// The type of a parameter: the last one given for its name.
pub open spec fn type_for(types: Seq<TypeView>, key: Seq<char>) -> Option<Seq<char>>
    decreases types.len(),
{
    if types.len() == 0 {
        None
    } else if types.last().key == key {
        Some(types.last().ty)
    } else {
        type_for(types.drop_last(), key)
    }
}

/// The first tool of that name.
pub open spec fn tool_named(tools: Seq<ToolView>, name: Seq<char>) -> Option<ToolView>
    decreases tools.len(),
{
    if tools.len() == 0 {
        None
    } else if tools[0].name == name {
        Some(tools[0])
    } else {
        tool_named(tools.subrange(1, tools.len() as int), name)
    }
}

/// The type of a parameter of the first tool of that name.
pub open spec fn parameter_type(tools: Seq<ToolView>, name: Seq<char>, key: Seq<char>) -> Option<
    Seq<char>,
> {
    match tool_named(tools, name) {
        Some(t) => type_for(t.types, key),
        None => None,
    }
}

fn schema_type_of(p: &Json) -> (s: String)
    ensures
        s@ == schema_type(p@),
{
    match p.get("type") {
        Some(Json::Text(t)) => owned(t.as_str()),
        Some(Json::Array(ts)) => {
            proof {
                lemma_array_view(*ts);
            }
            let ghost view = items_view(ts@);
            let n: usize = ts.len();
            let mut i: usize = 0;
            while i < n
                invariant
                    i <= n,
                    n == ts@.len(),
                    view == items_view(ts@),
                    first_type(view, 0) == first_type(view, i as int),
                    schema_type(p@) == first_type(view, 0),
                decreases n - i,
            {
                assert(view[i as int] == ts@[i as int]@);
                if let Some(t) = ts[i].as_str() {
                    if !str_eq(t, "null") {
                        return owned(t);
                    }
                }
                i = i + 1;
            }
            owned("string")
        },
        _ => {
            let s = String::new();
            assert(s@ =~= Seq::<char>::empty());
            s
        },
    }
}

impl ToolSpec {
    /// A copy.
    pub fn duplicate(&self) -> (t: ToolSpec)
        ensures
            t@ == self@,
    {
        let mut types: Vec<(String, String)> = Vec::new();
        let n: usize = self.param_types.len();
        let mut i: usize = 0;
        while i < n
            invariant
                i <= n,
                n == self.param_types@.len(),
                types@.len() == i,
                forall|j: int|
                    0 <= j < i ==> (#[trigger] types@[j]).0@ == self.param_types@[j].0@ && types@[j].1@
                        == self.param_types@[j].1@,
            decreases n - i,
        {
            types.push(
                (owned(self.param_types[i].0.as_str()), owned(self.param_types[i].1.as_str())),
            );
            i = i + 1;
        }
        let t = ToolSpec { name: owned(self.name.as_str()), param_types: types };
        assert(types_view(types@) =~= types_view(self.param_types@));
        t
    }

    /// From an OpenAI tool object (`{"type":"function","function":{...}}`) or a bare function.
    pub fn from_value(v: &Json) -> (r: Option<ToolSpec>)
        ensures
            match r {
                Some(t) => tool_of(v@) == Some(t@),
                None => tool_of(v@) is None,
            },
    {
        let f = match v.get("function") {
            Some(f) => f,
            None => v,
        };
        let name = owned(f.get("name")?.as_str()?);
        let ghost props = properties(f@);
        let mut param_types: Vec<(String, String)> = Vec::new();
        if let Some(p) = f.get("parameters") {
            if let Some(Json::Object(m)) = p.get("properties") {
                proof {
                    lemma_object_view(*m);
                }
                assert(props == members_view(m@));
                let n: usize = m.len();
                let mut i: usize = 0;
                while i < n
                    invariant
                        i <= n,
                        n == m@.len(),
                        props == members_view(m@),
                        param_types@.len() == i,
                        forall|k: int|
                            0 <= k < i ==> (#[trigger] param_types@[k]).0@ == props[k].key
                                && param_types@[k].1@ == schema_type(props[k].value),
                    decreases n - i,
                {
                    param_types.push((owned(m[i].0.as_str()), schema_type_of(&m[i].1)));
                    i = i + 1;
                }
            }
        }
        let t = ToolSpec { name, param_types };
        assert(t@ =~= tool_of(v@)->0);
        Some(t)
    }

    fn type_of(&self, key: &[char]) -> (r: Option<Vec<char>>)
        ensures
            match r {
                Some(t) => type_for(self@.types, key@) == Some(t@),
                None => type_for(self@.types, key@) is None,
            },
    {
        let ghost all = types_view(self.param_types@);
        let mut n: usize = self.param_types.len();
        assert(all.subrange(0, n as int) =~= all);
        while n > 0
            invariant
                n <= self.param_types@.len(),
                all == types_view(self.param_types@),
                type_for(all, key@) == type_for(all.subrange(0, n as int), key@),
            decreases n,
        {
            let ghost part = all.subrange(0, n as int);
            assert(part.last() == all[n - 1]);
            assert(part.drop_last() =~= all.subrange(0, n - 1));
            let k = to_chars(self.param_types[n - 1].0.as_str());
            if chars_eq(k.as_slice(), key) {
                return Some(to_chars(self.param_types[n - 1].1.as_str()));
            }
            n = n - 1;
        }
        None
    }
}

/// A parsed call: the function and its arguments in order.
#[derive(Debug)]
pub struct ToolCall {
    pub name: String,
    pub arguments: Vec<(String, Json)>,
}

pub struct CallView {
    pub name: Seq<char>,
    pub arguments: Seq<MemberView>,
}

impl View for ToolCall {
    type V = CallView;

    open spec fn view(&self) -> CallView {
        CallView { name: self.name@, arguments: members_view(self.arguments@) }
    }
}

/// The value of a parameter written as `raw`, given its type and what the text is as JSON: a
/// string parameter is the text; one of another type is the JSON, or the text where it is none;
/// an untyped one is the JSON unless that is absent or a string.
pub open spec fn typed(raw: Seq<char>, ty: Option<Seq<char>>, json: Option<JsonView>) -> JsonView {
    if ty == Some("string"@) {
        JsonView::Text(raw)
    } else if ty is Some && (ty->0).len() > 0 {
        match json {
            Some(v) => v,
            None => JsonView::Text(raw),
        }
    } else {
        match json {
            None => JsonView::Text(raw),
            Some(JsonView::Text(_)) => JsonView::Text(raw),
            Some(v) => v,
        }
    }
}

/// The value of a parameter, given what its text is as JSON.
pub fn type_value_of(raw: &[char], ty: Option<Vec<char>>, json: Option<Json>) -> (v: Json)
    ensures
        v@ == typed(
            raw@,
            match ty {
                Some(t) => Some(t@),
                None => None,
            },
            view_of(json),
        ),
{
    let string = to_chars("string");
    let text = Json::Text(from_chars(raw));
    match ty {
        Some(t) => {
            if chars_eq(t.as_slice(), string.as_slice()) {
                return text;
            }
            if t.len() > 0 {
                return match json {
                    Some(v) => v,
                    None => text,
                };
            }
        },
        None => {},
    }
    match json {
        None => text,
        Some(v) => {
            let is_text: bool = match &v {
                Json::Text(_) => true,
                _ => false,
            };
            if is_text { text } else { v }
        },
    }
}

/// The value of a parameter.
pub fn type_value(raw: &[char], ty: Option<Vec<char>>) -> (v: Json)
    ensures
        v@ == typed(
            raw@,
            match ty {
                Some(t) => Some(t@),
                None => None,
            },
            parsed(encode_utf8(raw@)),
        ),
{
    let s = from_chars(raw);
    let json = parse(s.as_str().as_bytes());
    type_value_of(raw, ty, json)
}

/// Whether `s` begins with `p`.
pub open spec fn starts(s: Seq<char>, p: Seq<char>) -> bool {
    found_at(s, p, 0)
}

/// One newline at either end taken off.
pub open spec fn unwrap_lines(s: Seq<char>) -> Seq<char> {
    let a = if s.len() > 0 && s[0] == '\n' { s.subrange(1, s.len() as int) } else { s };
    if a.len() > 0 && a.last() == '\n' { a.drop_last() } else { a }
}

/// The place of the member with that key.
pub open spec fn key_place(m: Seq<MemberView>, key: Seq<char>) -> Option<int>
    decreases m.len(),
{
    if m.len() == 0 {
        None
    } else if m.last().key == key {
        Some(m.len() - 1)
    } else {
        key_place(m.drop_last(), key)
    }
}

/// The members with `x`: in the place of an earlier one of its key, else at the end.
pub open spec fn with_member(m: Seq<MemberView>, x: MemberView) -> Seq<MemberView> {
    match key_place(m, x.key) {
        Some(i) => m.update(i, x),
        None => m.push(x),
    }
}

/// Set an argument.
pub(crate) fn set_argument(v: &mut Vec<(String, Json)>, key: &[char], value: Json)
    ensures
        members_view(final(v)@) == with_member(
            members_view(old(v)@),
            (MemberView { key: key@, value: value@ }),
        ),
{
    let ghost s = members_view(v@);
    let ghost x = MemberView { key: key@, value: value@ };
    let mut n: usize = v.len();
    assert(s.subrange(0, n as int) =~= s);
    while n > 0
        invariant
            n <= v@.len(),
            s == members_view(v@),
            v@ == old(v)@,
            x == (MemberView { key: key@, value: value@ }),
            key_place(s, key@) == key_place(s.subrange(0, n as int), key@),
        decreases n,
    {
        let ghost part = s.subrange(0, n as int);
        assert(part.last() == s[n - 1]);
        assert(part.drop_last() =~= s.subrange(0, n - 1));
        let k = to_chars(v[n - 1].0.as_str());
        if chars_eq(k.as_slice(), key) {
            v.set(n - 1, (from_chars(key), value));
            assert(members_view(v@) =~= s.update(n - 1, x));
            return;
        }
        n = n - 1;
    }
    v.push((from_chars(key), value));
    assert(members_view(v@) =~= s.push(x));
}

/// The arguments that follow: `<parameter=KEY>VALUE</parameter>` any number of times, white space
/// between them, up to `</function>` or the end of the text. None where something else stands
/// there.
pub open spec fn arguments_in(
    rest: Seq<char>,
    tools: Seq<ToolView>,
    name: Seq<char>,
    acc: Seq<MemberView>,
) -> Option<Seq<MemberView>>
    decreases rest.len(),
{
    let r = trim_start(rest);
    if r.len() == 0 || starts(r, "</function>"@) {
        Some(acc)
    } else if !starts(r, "<parameter="@) {
        None
    } else {
        let r1 = r.subrange("<parameter="@.len() as int, r.len() as int);
        match find_from(r1, ">"@, 0) {
            None => None,
            Some(c) => {
                let key = trim(r1.subrange(0, c));
                let val = r1.subrange(c + 1, r1.len() as int);
                match find_from(val, "</parameter>"@, 0) {
                    None => None,
                    Some(e) => {
                        let raw = unwrap_lines(val.subrange(0, e));
                        let next = val.subrange(e + "</parameter>"@.len(), val.len() as int);
                        let value = typed(
                            raw,
                            parameter_type(tools, name, key),
                            parsed(encode_utf8(raw)),
                        );
                        if next.len() < rest.len() {
                            arguments_in(
                                next,
                                tools,
                                name,
                                with_member(acc, MemberView { key, value }),
                            )
                        } else {
                            None
                        }
                    },
                }
            },
        }
    }
}

/// The call inside one `<tool_call>…</tool_call>` block, where it is one.
pub open spec fn call_in(block: Seq<char>, tools: Seq<ToolView>) -> Option<CallView> {
    let s = trim(block);
    if !starts(s, "<function="@) {
        None
    } else {
        let rest = s.subrange("<function="@.len() as int, s.len() as int);
        match find_from(rest, ">"@, 0) {
            None => None,
            Some(c) => {
                let name = trim(rest.subrange(0, c));
                match arguments_in(
                    rest.subrange(c + 1, rest.len() as int),
                    tools,
                    name,
                    Seq::empty(),
                ) {
                    Some(arguments) => Some(CallView { name, arguments }),
                    None => None,
                }
            },
        }
    }
}

/// The first tool of that name.
fn find_tool(specs: &Vec<ToolSpec>, name: &[char]) -> (r: Option<usize>)
    ensures
        match r {
            Some(i) => i < specs@.len() && tool_named(tools_view(specs@), name@) == Some(
                specs@[i as int]@,
            ),
            None => tool_named(tools_view(specs@), name@) is None,
        },
{
    let ghost all = tools_view(specs@);
    let n: usize = specs.len();
    let mut i: usize = 0;
    assert(all.subrange(0, n as int) =~= all);
    while i < n
        invariant
            i <= n,
            n == specs@.len(),
            all == tools_view(specs@),
            tool_named(all, name@) == tool_named(all.subrange(i as int, n as int), name@),
        decreases n - i,
    {
        let ghost rest = all.subrange(i as int, n as int);
        assert(rest[0] == all[i as int]);
        assert(rest.subrange(1, rest.len() as int) =~= all.subrange(i + 1, n as int));
        let k = to_chars(specs[i].name.as_str());
        if chars_eq(k.as_slice(), name) {
            return Some(i);
        }
        i = i + 1;
    }
    None
}

/// One newline at either end taken off: where the rest begins and ends.
fn unwrapped(s: &[char]) -> (v: Vec<char>)
    ensures
        v@ == unwrap_lines(s@),
{
    let n: usize = s.len();
    let a: usize = if n > 0 && s[0] == '\n' { 1 } else { 0 };
    let b: usize = if n > a && s[n - 1] == '\n' { n - 1 } else { n };
    let v = copy_range(s, a, b);
    assert(v@ =~= unwrap_lines(s@));
    v
}

/// Parse the inside of one `<tool_call>…</tool_call>` block.
pub fn parse_call(block: &str, specs: &Vec<ToolSpec>) -> (r: Option<ToolCall>)
    ensures
        match r {
            Some(c) => call_in(block@, tools_view(specs@)) == Some(c@),
            None => call_in(block@, tools_view(specs@)) is None,
        },
{
    let b = to_chars(block);
    parse_call_chars(b.as_slice(), specs)
}

fn parse_call_chars(block: &[char], specs: &Vec<ToolSpec>) -> (r: Option<ToolCall>)
    ensures
        match r {
            Some(c) => call_in(block@, tools_view(specs@)) == Some(c@),
            None => call_in(block@, tools_view(specs@)) is None,
        },
{
    let ghost tools = tools_view(specs@);
    let function = to_chars("<function=");
    let gt = to_chars(">");
    let end_function = to_chars("</function>");
    let parameter = to_chars("<parameter=");
    let end_parameter = to_chars("</parameter>");
    proof {
        reveal_strlit("<function=");
        reveal_strlit(">");
        reveal_strlit("</function>");
        reveal_strlit("<parameter=");
        reveal_strlit("</parameter>");
    }
    let s = trimmed(block);
    if !matches_at(s.as_slice(), function.as_slice(), 0) {
        return None;
    }
    let n: usize = s.len();
    let rest = copy_range(s.as_slice(), 10, n);
    let close: usize = match find(rest.as_slice(), gt.as_slice(), 0) {
        Some(c) => c,
        None => {
            return None;
        },
    };
    let name_raw = copy_range(rest.as_slice(), 0, close);
    let name = trimmed(name_raw.as_slice());
    let spec = find_tool(specs, name.as_slice());
    let mut rest = copy_range(rest.as_slice(), close + 1, rest.len());
    let mut arguments: Vec<(String, Json)> = Vec::new();
    assert(members_view(arguments@) =~= Seq::<MemberView>::empty());
    let ghost whole = arguments_in(rest@, tools, name@, Seq::empty());
    loop
        invariant
            tools == tools_view(specs@),
            end_function@ == "</function>"@,
            parameter@ == "<parameter="@,
            end_parameter@ == "</parameter>"@,
            gt@ == ">"@,
            "<parameter="@.len() == 11,
            "</parameter>"@.len() == 12,
            ">"@.len() == 1,
            match spec {
                Some(i) => i < specs@.len() && tool_named(tools, name@) == Some(specs@[i as int]@),
                None => tool_named(tools, name@) is None,
            },
            match whole {
                Some(a) => call_in(block@, tools) == Some(CallView { name: name@, arguments: a }),
                None => call_in(block@, tools) is None,
            },
            whole == arguments_in(rest@, tools, name@, members_view(arguments@)),
        decreases rest@.len(),
    {
        let lead: usize = leading_white(rest.as_slice());
        let r = copy_range(rest.as_slice(), lead, rest.len());
        if r.len() == 0 || matches_at(r.as_slice(), end_function.as_slice(), 0) {
            let c = ToolCall { name: from_chars(name.as_slice()), arguments };
            return Some(c);
        }
        if !matches_at(r.as_slice(), parameter.as_slice(), 0) {
            return None;
        }
        let r1 = copy_range(r.as_slice(), 11, r.len());
        let c: usize = match find(r1.as_slice(), gt.as_slice(), 0) {
            Some(c) => c,
            None => {
                return None;
            },
        };
        let key_raw = copy_range(r1.as_slice(), 0, c);
        let key = trimmed(key_raw.as_slice());
        let val = copy_range(r1.as_slice(), c + 1, r1.len());
        let e: usize = match find(val.as_slice(), end_parameter.as_slice(), 0) {
            Some(e) => e,
            None => {
                return None;
            },
        };
        let raw_lines = copy_range(val.as_slice(), 0, e);
        let raw = unwrapped(raw_lines.as_slice());
        let next = copy_range(val.as_slice(), e + 12, val.len());
        let ty = match spec {
            Some(i) => specs[i].type_of(key.as_slice()),
            None => None,
        };
        let value = type_value(raw.as_slice(), ty);
        set_argument(&mut arguments, key.as_slice(), value);
        rest = next;
    }
}

/// What the stream gives out: text, or a call.
pub enum Out {
    Text(String),
    Call(ToolCall),
}

pub enum OutView {
    Text(Seq<char>),
    Call(CallView),
}

impl View for Out {
    type V = OutView;

    open spec fn view(&self) -> OutView {
        match self {
            Out::Text(s) => OutView::Text(s@),
            Out::Call(c) => OutView::Call(c@),
        }
    }
}

pub open spec fn outs_view(v: Seq<Out>) -> Seq<OutView> {
    Seq::new(v.len(), |i: int| v[i]@)
}

/// Splits a content stream into text and tool calls; holds back a possible partial `<tool_call>`.
pub struct ToolStream {
    buf: Vec<char>,
    in_call: bool,
    specs: Vec<ToolSpec>,
    pub n_calls: usize,
}

/// The state of a stream: what is held back, whether a call is open, how many calls there were.
#[verifier::ext_equal]
pub struct StreamView {
    pub buf: Seq<char>,
    pub in_call: bool,
    pub n_calls: usize,
}

/// A state and what was given out on the way to it.
pub struct Stepped {
    pub state: StreamView,
    pub outs: Seq<OutView>,
}

/// How many characters at the end of `s`, at most `n`, are the beginning of `<tool_call>`.
pub open spec fn partial_open(s: Seq<char>, n: int) -> int
    decreases n,
{
    if n <= 0 {
        0
    } else if n <= s.len() && s.subrange(s.len() - n, s.len() as int) == "<tool_call>"@.subrange(
        0,
        n,
    ) {
        n
    } else {
        partial_open(s, n - 1)
    }
}

/// How much of a text without a tag is given out: all but a partial tag at its end and the white
/// space before it.
pub open spec fn settled(s: Seq<char>) -> int {
    trim_end(s.subrange(0, s.len() - partial_open(s, 10))).len() as int
}

/// One more call; the counter wraps.
pub open spec fn one_more(n: usize) -> usize {
    if n == usize::MAX { 0 } else { (n + 1) as usize }
}

/// What a stream makes of what it holds: blocks that are closed become calls (or text, where they
/// are none), text before an opened block is given out without the white space around it, and of
/// the rest all that cannot belong to a tag.
pub open spec fn run(s: StreamView, tools: Seq<ToolView>, outs: Seq<OutView>) -> Stepped
    decreases s.buf.len(),
{
    let n = s.buf.len() as int;
    if s.in_call {
        match find_from(s.buf, "</tool_call>"@, 0) {
            None => Stepped { state: s, outs },
            Some(p) => {
                let block = s.buf.subrange(0, p);
                let rest = s.buf.subrange(p + "</tool_call>"@.len(), n);
                if rest.len() < s.buf.len() {
                    match call_in(block, tools) {
                        Some(c) => run(
                            StreamView { buf: rest, in_call: false, n_calls: one_more(s.n_calls) },
                            tools,
                            outs.push(OutView::Call(c)),
                        ),
                        None => run(
                            StreamView { buf: rest, in_call: false, ..s },
                            tools,
                            outs.push(
                                OutView::Text("<tool_call>"@ + block + "</tool_call>"@),
                            ),
                        ),
                    }
                } else {
                    Stepped { state: s, outs }
                }
            },
        }
    } else {
        match find_from(s.buf, "<tool_call>"@, 0) {
            Some(p) => {
                let head = s.buf.subrange(0, p);
                let text = if s.n_calls == 0 { trim_end(head) } else { trim(head) };
                let rest = s.buf.subrange(p + "<tool_call>"@.len(), n);
                if rest.len() < s.buf.len() {
                    run(
                        StreamView { buf: rest, in_call: true, ..s },
                        tools,
                        if text.len() > 0 { outs.push(OutView::Text(text)) } else { outs },
                    )
                } else {
                    Stepped { state: s, outs }
                }
            },
            None => {
                let end = settled(s.buf);
                if end > 0 {
                    Stepped {
                        state: StreamView { buf: s.buf.subrange(end, n), ..s },
                        outs: outs.push(OutView::Text(s.buf.subrange(0, end))),
                    }
                } else {
                    Stepped { state: s, outs }
                }
            },
        }
    }
}

/// What is given out at the end: an unterminated call raw, any other rest as text, behind a call
/// without the white space around it.
pub open spec fn last_text(s: StreamView) -> Seq<char> {
    if s.in_call {
        "<tool_call>"@ + s.buf
    } else if s.n_calls > 0 {
        trim(s.buf)
    } else {
        s.buf
    }
}

fn push_out(v: &mut Vec<Out>, o: Out)
    ensures
        outs_view(final(v)@) == outs_view(old(v)@).push(o@),
{
    v.push(o);
    assert(outs_view(v@) =~= outs_view(old(v)@).push(o@));
}

/// How many characters at the end of `s` are the beginning of `<tool_call>`.
fn held_back(s: &Vec<char>, open: &Vec<char>) -> (h: usize)
    requires
        open@ == "<tool_call>"@,
        open@.len() == 11,
    ensures
        h == partial_open(s@, 10),
        h <= s@.len(),
{
    let len: usize = s.len();
    let mut n: usize = 10;
    while n > 0
        invariant
            n <= 10,
            len == s@.len(),
            open@ == "<tool_call>"@,
            open@.len() == 11,
            partial_open(s@, 10) == partial_open(s@, n as int),
        decreases n,
    {
        if len >= n {
            let tail = copy_range(s.as_slice(), len - n, len);
            let head = copy_range(open.as_slice(), 0, n);
            if chars_eq(tail.as_slice(), head.as_slice()) {
                return n;
            }
        }
        n = n - 1;
    }
    0
}

impl ToolStream {
    /// The state of the stream.
    pub closed spec fn view(&self) -> StreamView {
        StreamView { buf: self.buf@, in_call: self.in_call, n_calls: self.n_calls }
    }

    /// The tools that calls are typed by.
    pub closed spec fn tools(&self) -> Seq<ToolView> {
        tools_view(self.specs@)
    }

    pub fn new(specs: Vec<ToolSpec>) -> (s: ToolStream)
        ensures
            s.view() == (StreamView { buf: Seq::empty(), in_call: false, n_calls: 0 }),
            s.tools() == tools_view(specs@),
    {
        let s = ToolStream { buf: Vec::new(), in_call: false, specs, n_calls: 0 };
        assert(s.view() =~= (StreamView { buf: Seq::empty(), in_call: false, n_calls: 0 }));
        s
    }

    /// Take in more of the stream; what can be given out.
    pub fn push(&mut self, s: &str) -> (out: Vec<Out>)
        ensures
            final(self).tools() == old(self).tools(),
            ({
                let v = old(self).view();
                let r = run(
                    StreamView { buf: v.buf + s@, ..v },
                    old(self).tools(),
                    Seq::empty(),
                );
                final(self).view() == r.state && outs_view(out@) == r.outs
            }),
    {
        let open = to_chars("<tool_call>");
        let close = to_chars("</tool_call>");
        proof {
            reveal_strlit("<tool_call>");
            reveal_strlit("</tool_call>");
        }
        let mut more = to_chars(s);
        self.buf.append(&mut more);
        let mut out: Vec<Out> = Vec::new();
        assert(outs_view(out@) =~= Seq::<OutView>::empty());
        let ghost whole = run(self.view(), self.tools(), Seq::empty());
        loop
            invariant
                open@ == "<tool_call>"@,
                close@ == "</tool_call>"@,
                "<tool_call>"@.len() == 11,
                "</tool_call>"@.len() == 12,
                self.tools() == old(self).tools(),
                whole == run(self.view(), self.tools(), outs_view(out@)),
                whole == run(
                    (StreamView { buf: old(self).view().buf + s@, ..old(self).view() }),
                    old(self).tools(),
                    Seq::empty(),
                ),
            decreases self.buf@.len(),
        {
            let n: usize = self.buf.len();
            if self.in_call {
                match find(self.buf.as_slice(), close.as_slice(), 0) {
                    Some(p) => {
                        let block = copy_range(self.buf.as_slice(), 0, p);
                        self.buf = copy_range(self.buf.as_slice(), p + 12, n);
                        self.in_call = false;
                        match parse_call_chars(block.as_slice(), &self.specs) {
                            Some(c) => {
                                self.n_calls = self.n_calls.wrapping_add(1);
                                push_out(&mut out, Out::Call(c));
                            },
                            None => {
                                let mut t = owned("<tool_call>");
                                let b = from_chars(block.as_slice());
                                crate::text::push_text(&mut t, b.as_str());
                                crate::text::push_text(&mut t, "</tool_call>");
                                push_out(&mut out, Out::Text(t));
                            },
                        }
                    },
                    None => {
                        return out;
                    },
                }
            } else {
                match find(self.buf.as_slice(), open.as_slice(), 0) {
                    Some(p) => {
                        let head = copy_range(self.buf.as_slice(), 0, p);
                        self.buf = copy_range(self.buf.as_slice(), p + 11, n);
                        self.in_call = true;
                        let text = if self.n_calls == 0 {
                            let k: usize = trim_end_len(head.as_slice());
                            copy_range(head.as_slice(), 0, k)
                        } else {
                            trimmed(head.as_slice())
                        };
                        if text.len() > 0 {
                            push_out(&mut out, Out::Text(from_chars(text.as_slice())));
                        }
                    },
                    None => {
                        let hold: usize = held_back(&self.buf, &open);
                        let head = copy_range(self.buf.as_slice(), 0, n - hold);
                        let end: usize = trim_end_len(head.as_slice());
                        assert(end == settled(self.buf@)) by {
                            assert(trim_end(head@).len() == end);
                        }
                        if end > 0 {
                            let text = copy_range(self.buf.as_slice(), 0, end);
                            push_out(&mut out, Out::Text(from_chars(text.as_slice())));
                            self.buf = copy_range(self.buf.as_slice(), end, n);
                        }
                        return out;
                    },
                }
            }
        }
    }

    /// End of generation: whatever is buffered is text (an unterminated call is returned raw).
    pub fn finish(&mut self) -> (out: Vec<Out>)
        ensures
            final(self).tools() == old(self).tools(),
            final(self).view() == (StreamView {
                buf: Seq::empty(),
                in_call: false,
                n_calls: old(self).view().n_calls,
            }),
            ({
                let t = last_text(old(self).view());
                if t.len() > 0 {
                    outs_view(out@) == seq![OutView::Text(t)]
                } else {
                    outs_view(out@) == Seq::<OutView>::empty()
                }
            }),
    {
        let mut rest: Vec<char> = Vec::new();
        if self.in_call {
            rest = to_chars("<tool_call>");
        }
        rest.append(&mut self.buf);
        assert(rest@ =~= if old(self).in_call {
            "<tool_call>"@ + old(self).buf@
        } else {
            old(self).buf@
        });
        let text = if !self.in_call && self.n_calls > 0 { trimmed(rest.as_slice()) } else { rest };
        self.in_call = false;
        let mut out: Vec<Out> = Vec::new();
        assert(outs_view(out@) =~= Seq::<OutView>::empty());
        if text.len() > 0 {
            push_out(&mut out, Out::Text(from_chars(text.as_slice())));
            assert(outs_view(out@) =~= seq![OutView::Text(text@)]);
        }
        assert(self.view() =~= (StreamView {
            buf: Seq::empty(),
            in_call: false,
            n_calls: old(self).view().n_calls,
        }));
        out
    }
}

/// The text that was given out, calls left aside.
pub open spec fn text_of(outs: Seq<OutView>) -> Seq<char>
    decreases outs.len(),
{
    if outs.len() == 0 {
        Seq::empty()
    } else {
        match outs.last() {
            OutView::Text(t) => text_of(outs.drop_last()) + t,
            OutView::Call(_) => text_of(outs.drop_last()),
        }
    }
}

/// Text without a tag passes through unchanged: what was given out and what is still held back
/// are together what came in.
pub proof fn law_plain_text_passes(s: StreamView, tools: Seq<ToolView>, more: Seq<char>)
    requires
        !s.in_call,
        find_from(s.buf + more, "<tool_call>"@, 0) is None,
    ensures
        ({
            let r = run(StreamView { buf: s.buf + more, ..s }, tools, Seq::empty());
            &&& text_of(r.outs) + r.state.buf == s.buf + more
            &&& !r.state.in_call
            &&& r.state.n_calls == s.n_calls
        }),
{
    let all = s.buf + more;
    let r = run(StreamView { buf: all, ..s }, tools, Seq::empty());
    let end = settled(all);
    lemma_settled(all);
    if end > 0 {
        let t = all.subrange(0, end);
        assert(r.outs =~= seq![OutView::Text(t)]);
        assert(r.outs.drop_last() =~= Seq::<OutView>::empty());
        assert(text_of(r.outs.drop_last()) =~= Seq::<char>::empty());
        assert(text_of(r.outs) =~= t);
        assert(t + all.subrange(end, all.len() as int) =~= all);
    } else {
        assert(text_of(r.outs) + all =~= all);
    }
}

pub(crate) proof fn lemma_partial_open(s: Seq<char>, n: int)
    ensures
        0 <= partial_open(s, n),
        partial_open(s, n) <= s.len(),
        n >= 0 ==> partial_open(s, n) <= n,
    decreases n,
{
    if n > 0 {
        lemma_partial_open(s, n - 1);
    }
}

proof fn lemma_trim_end_len(s: Seq<char>)
    ensures
        trim_end(s).len() <= s.len(),
    decreases s.len(),
{
    if s.len() > 0 {
        lemma_trim_end_len(s.drop_last());
    }
}

pub(crate) proof fn lemma_settled(s: Seq<char>)
    ensures
        0 <= settled(s) <= s.len(),
{
    lemma_partial_open(s, 10);
    lemma_trim_end_len(s.subrange(0, s.len() - partial_open(s, 10)));
}

/// A tool is read from the function that its definition holds under `function`, or from the
/// definition itself where it holds none: its name, and every property of its parameters in order.
pub proof fn law_tool_has_the_properties_of_its_function(
    v: JsonView,
    f: JsonView,
    name: Seq<char>,
    p: JsonView,
    m: Seq<MemberView>,
    i: int,
)
    requires
        v.at("function"@) == Some(f) || (v.at("function"@) is None && f == v),
        f.at("name"@) == Some(JsonView::Text(name)),
        f.at("parameters"@) == Some(p),
        p.at("properties"@) == Some(JsonView::Object(m)),
        0 <= i < m.len(),
    ensures
        tool_of(v) matches Some(t) && t.name == name && t.types.len() == m.len() && t.types[i].key
            == m[i].key,
{
}

/// A definition is a tool exactly where its function has a name that is a string; without properties
/// it has no parameters.
pub proof fn law_a_tool_has_a_name(v: JsonView, f: JsonView)
    requires
        v.at("function"@) == Some(f) || (v.at("function"@) is None && f == v),
    ensures
        tool_of(v) is Some <==> f.at("name"@) matches Some(JsonView::Text(_)),
        tool_of(v) matches Some(t) ==> (f.at("parameters"@) is None ==> t.types.len() == 0),
        tool_of(v) matches Some(t) ==> (f.at("parameters"@) matches Some(p) ==> (p.at("properties"@)
            !is Some ==> t.types.len() == 0)),
{
}

/// A property whose schema gives one type has that type, and one whose schema gives none has none.
pub proof fn law_single_type_is_kept(
    v: JsonView,
    f: JsonView,
    name: Seq<char>,
    p: JsonView,
    m: Seq<MemberView>,
    i: int,
)
    requires
        v.at("function"@) == Some(f) || (v.at("function"@) is None && f == v),
        f.at("name"@) == Some(JsonView::Text(name)),
        f.at("parameters"@) == Some(p),
        p.at("properties"@) == Some(JsonView::Object(m)),
        0 <= i < m.len(),
    ensures
        tool_of(v) matches Some(t) && match m[i].value.at("type"@) {
            Some(JsonView::Text(ty)) => t.types[i].ty == ty,
            Some(JsonView::Array(_)) => true,
            _ => t.types[i].ty == Seq::<char>::empty(),
        },
{
}

/// A property whose schema lists types has the first of them that is a string other than `null`, and
/// `string` where there is no such item.
pub proof fn law_listed_type_is_the_first_real_one(
    v: JsonView,
    f: JsonView,
    name: Seq<char>,
    p: JsonView,
    m: Seq<MemberView>,
    i: int,
    ts: Seq<JsonView>,
    k: int,
)
    requires
        v.at("function"@) == Some(f) || (v.at("function"@) is None && f == v),
        f.at("name"@) == Some(JsonView::Text(name)),
        f.at("parameters"@) == Some(p),
        p.at("properties"@) == Some(JsonView::Object(m)),
        0 <= i < m.len(),
        m[i].value.at("type"@) == Some(JsonView::Array(ts)),
        0 <= k <= ts.len(),
        forall|j: int|
            0 <= j < k ==> !((#[trigger] ts[j]) matches JsonView::Text(t) && t != "null"@),
    ensures
        tool_of(v) matches Some(t) && {
            &&& k < ts.len() ==> (ts[k] matches JsonView::Text(ty) ==> (ty != "null"@ ==> t.types[i].ty == ty))
            &&& k == ts.len() ==> t.types[i].ty == "string"@
        },
{
    lemma_skipped_types(ts, k);
}

proof fn lemma_skipped_types(ts: Seq<JsonView>, k: int)
    requires
        0 <= k <= ts.len(),
        forall|j: int|
            0 <= j < k ==> !((#[trigger] ts[j]) matches JsonView::Text(t) && t != "null"@),
    ensures
        first_type(ts, 0) == first_type(ts, k),
    decreases k,
{
    if k > 0 {
        lemma_skipped_types(ts, k - 1);
        assert(!(ts[k - 1] matches JsonView::Text(t) && t != "null"@));
    }
}

/// A parameter has the type that the first tool of the call's name gives it last.
pub proof fn law_parameter_type_is_that_of_the_called_tool(
    tools: Seq<ToolView>,
    name: Seq<char>,
    key: Seq<char>,
    i: int,
    j: int,
)
    requires
        0 <= i < tools.len(),
        tools[i].name == name,
        forall|x: int| 0 <= x < i ==> (#[trigger] tools[x]).name != name,
        0 <= j < tools[i].types.len(),
        tools[i].types[j].key == key,
        forall|x: int| j < x < tools[i].types.len() ==> (#[trigger] tools[i].types[x]).key != key,
    ensures
        parameter_type(tools, name, key) == Some(tools[i].types[j].ty),
{
    lemma_first_tool(tools, name, i);
    lemma_last_type(tools[i].types, key, j);
}

/// A parameter that the called tool does not have, or of a tool that is not there, has no type.
pub proof fn law_unknown_parameter_has_no_type(tools: Seq<ToolView>, name: Seq<char>, key: Seq<char>)
    requires
        forall|i: int, j: int|
            0 <= i < tools.len() && tools[i].name == name && 0 <= j < tools[i].types.len()
                ==> (#[trigger] tools[i].types[j]).key != key,
    ensures
        parameter_type(tools, name, key) is None,
{
    lemma_tool_is_there(tools, name);
    if let Some(t) = tool_named(tools, name) {
        let i = choose|i: int| 0 <= i < tools.len() && tools[i].name == name && t == tools[i];
        assert forall|j: int| 0 <= j < t.types.len() implies (#[trigger] t.types[j]).key != key by {
            assert(tools[i].types[j].key != key);
        }
        lemma_no_type(t.types, key);
    }
}

proof fn lemma_first_tool(tools: Seq<ToolView>, name: Seq<char>, i: int)
    requires
        0 <= i < tools.len(),
        tools[i].name == name,
        forall|x: int| 0 <= x < i ==> (#[trigger] tools[x]).name != name,
    ensures
        tool_named(tools, name) == Some(tools[i]),
    decreases tools.len(),
{
    if i > 0 {
        assert(tools[0].name != name);
        let rest = tools.subrange(1, tools.len() as int);
        assert forall|x: int| 0 <= x < i - 1 implies (#[trigger] rest[x]).name != name by {
            assert(rest[x] == tools[x + 1]);
        }
        lemma_first_tool(rest, name, i - 1);
    }
}

proof fn lemma_tool_is_there(tools: Seq<ToolView>, name: Seq<char>)
    ensures
        tool_named(tools, name) matches Some(t) ==> exists|i: int|
            0 <= i < tools.len() && tools[i].name == name && t == tools[i],
    decreases tools.len(),
{
    if tools.len() > 0 && tools[0].name != name {
        let rest = tools.subrange(1, tools.len() as int);
        lemma_tool_is_there(rest, name);
        if let Some(t) = tool_named(rest, name) {
            let i = choose|i: int| 0 <= i < rest.len() && rest[i].name == name && t == rest[i];
            assert(tools[i + 1] == rest[i]);
        }
    }
}

proof fn lemma_last_type(types: Seq<TypeView>, key: Seq<char>, j: int)
    requires
        0 <= j < types.len(),
        types[j].key == key,
        forall|x: int| j < x < types.len() ==> (#[trigger] types[x]).key != key,
    ensures
        type_for(types, key) == Some(types[j].ty),
    decreases types.len(),
{
    if j < types.len() - 1 {
        let rest = types.drop_last();
        assert(types[types.len() - 1].key != key);
        assert forall|x: int| j < x < rest.len() implies (#[trigger] rest[x]).key != key by {
            assert(rest[x] == types[x]);
        }
        lemma_last_type(rest, key, j);
    }
}

proof fn lemma_no_type(types: Seq<TypeView>, key: Seq<char>)
    requires
        forall|j: int| 0 <= j < types.len() ==> (#[trigger] types[j]).key != key,
    ensures
        type_for(types, key) is None,
    decreases types.len(),
{
    if types.len() > 0 {
        let rest = types.drop_last();
        assert(types[types.len() - 1].key != key);
        assert forall|j: int| 0 <= j < rest.len() implies (#[trigger] rest[j]).key != key by {
            assert(rest[j] == types[j]);
        }
        lemma_no_type(rest, key);
    }
}

/// A string parameter is never read as JSON: its value is its text.
pub proof fn law_string_parameter_is_its_text(raw: Seq<char>, json: Option<JsonView>)
    ensures
        typed(raw, Some("string"@), json) == JsonView::Text(raw),
{
}

/// A parameter of any other type is the JSON that its text is.
pub proof fn law_typed_parameter_is_its_json(raw: Seq<char>, ty: Seq<char>, v: JsonView)
    requires
        ty != "string"@,
        ty.len() > 0,
    ensures
        typed(raw, Some(ty), Some(v)) == v,
{
}

/// A parameter without a type is the JSON that its text is, unless that is a string: then the text
/// keeps its quotes.
pub proof fn law_untyped_parameter(raw: Seq<char>, ty: Option<Seq<char>>, v: JsonView)
    requires
        ty is None || (ty->0).len() == 0,
    ensures
        v !is Text ==> typed(raw, ty, Some(v)) == v,
        v is Text ==> typed(raw, ty, Some(v)) == JsonView::Text(raw),
{
    reveal_strlit("string");
}

/// A text that is no JSON stands for itself, whatever its type.
pub proof fn law_text_that_is_no_json(raw: Seq<char>, ty: Option<Seq<char>>)
    ensures
        typed(raw, ty, None) == JsonView::Text(raw),
{
}

/// Of the line ends around a value, one is taken off on either side and no other.
pub proof fn law_one_line_end_on_either_side(s: Seq<char>)
    ensures
        unwrap_lines(seq!['\n'] + s + seq!['\n']) == s,
        s.len() > 0 && s[0] != '\n' && s.last() != '\n' ==> unwrap_lines(s) == s,
        s.len() > 0 && s.last() != '\n' ==> unwrap_lines(seq!['\n'] + s) == s,
        s.len() > 0 && s[0] != '\n' ==> unwrap_lines(s + seq!['\n']) == s,
{
    let w = seq!['\n'] + s + seq!['\n'];
    assert(w.subrange(1, w.len() as int) =~= s + seq!['\n']);
    assert((s + seq!['\n']).drop_last() =~= s);
    let l = seq!['\n'] + s;
    assert(l.subrange(1, l.len() as int) =~= s);
}

/// An argument that is given again takes the place of the earlier one; a new one comes last.
pub proof fn law_argument_given_again_replaces(m: Seq<MemberView>, x: MemberView, i: int)
    requires
        0 <= i < m.len(),
        m[i].key == x.key,
        forall|j: int| i < j < m.len() ==> (#[trigger] m[j]).key != x.key,
    ensures
        with_member(m, x) == m.update(i, x),
{
    lemma_last_place(m, x.key, i);
}

/// An argument of a new key comes behind the others.
pub proof fn law_new_argument_comes_last(m: Seq<MemberView>, x: MemberView)
    requires
        forall|j: int| 0 <= j < m.len() ==> (#[trigger] m[j]).key != x.key,
    ensures
        with_member(m, x) == m.push(x),
{
    lemma_no_place(m, x.key);
}

proof fn lemma_last_place(m: Seq<MemberView>, key: Seq<char>, i: int)
    requires
        0 <= i < m.len(),
        m[i].key == key,
        forall|j: int| i < j < m.len() ==> (#[trigger] m[j]).key != key,
    ensures
        key_place(m, key) == Some(i),
    decreases m.len(),
{
    if i < m.len() - 1 {
        assert(m[m.len() - 1].key != key);
        let rest = m.drop_last();
        assert forall|j: int| i < j < rest.len() implies (#[trigger] rest[j]).key != key by {
            assert(rest[j] == m[j]);
        }
        lemma_last_place(rest, key, i);
    }
}

proof fn lemma_no_place(m: Seq<MemberView>, key: Seq<char>)
    requires
        forall|j: int| 0 <= j < m.len() ==> (#[trigger] m[j]).key != key,
    ensures
        key_place(m, key) is None,
    decreases m.len(),
{
    if m.len() > 0 {
        assert(m[m.len() - 1].key != key);
        let rest = m.drop_last();
        assert forall|j: int| 0 <= j < rest.len() implies (#[trigger] rest[j]).key != key by {
            assert(rest[j] == m[j]);
        }
        lemma_no_place(rest, key);
    }
}

} // verus!
