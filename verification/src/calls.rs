//! A call that is written into a prompt is read back as the same call: what the model is shown of
//! its earlier calls is what its next ones are read by.
use crate::chat::{call_arguments, say_arguments, say_call, PromptView};
use crate::json::{parsed, JsonView, MemberView};
use crate::text::{find_from, found_at, lemma_find_from, trim, trim_end, trim_start, white};
use crate::tools::{
    arguments_in, call_in, function_of, key_place, parameter_type, py_text, starts, typed, unwrap_lines, with_member,
    CallView, ToolView,
};
use vstd::prelude::*;
use vstd::utf8::encode_utf8;

verus! {

/// The text of an argument's value: a string as it is, another value as JSON.
pub open spec fn value_text(v: JsonView) -> Seq<char> {
    match v {
        JsonView::Text(s) => s,
        other => py_text(other),
    }
}

/// An argument as it stands in a prompt.
pub open spec fn argument_text(x: MemberView) -> Seq<char> {
    "<parameter="@ + x.key + ">\n"@ + value_text(x.value) + "\n</parameter>\n"@
}

/// The arguments from the `i`-th on as they stand in a prompt.
pub open spec fn arguments_from(m: Seq<MemberView>, i: int) -> Seq<char>
    decreases m.len() - i,
{
    if i < 0 || i >= m.len() {
        Seq::empty()
    } else {
        argument_text(m[i]) + arguments_from(m, i + 1)
    }
}

/// The inside of a call's block as it stands in a prompt.
pub open spec fn block_text(name: Seq<char>, m: Seq<MemberView>) -> Seq<char> {
    "\n<function="@ + name + ">\n"@ + arguments_from(m, 0) + "</function>\n"@
}

/// A name that can stand before a closing `>`.
pub open spec fn plain_name(s: Seq<char>) -> bool {
    trim(s) == s && forall|i: int| 0 <= i < s.len() ==> s[i] != '>'
}

/// An argument that can be read back: its key can, its text does not end its own block, and that
/// text, with the type that the tool gives the parameter, stands for its value.
pub open spec fn plain_argument(tools: Seq<ToolView>, name: Seq<char>, x: MemberView) -> bool {
    let t = value_text(x.value);
    &&& plain_name(x.key)
    &&& find_from(t, "</parameter>"@, 0) is None
    &&& typed(t, parameter_type(tools, name, x.key), parsed(encode_utf8(t))) == x.value
}

/// Whether no key occurs twice.
pub open spec fn distinct_keys(m: Seq<MemberView>) -> bool {
    forall|i: int, j: int|
        0 <= i < j < m.len() ==> (#[trigger] m[i]).key != (#[trigger] m[j]).key
}

/// A first place of a pattern is where it is found.
proof fn lemma_found_first(s: Seq<char>, pat: Seq<char>, i: int)
    requires
        found_at(s, pat, i),
        forall|j: int| 0 <= j < i ==> !found_at(s, pat, j),
    ensures
        find_from(s, pat, 0) == Some(i),
{
    lemma_find_from(s, pat, 0);
}

proof fn lemma_char_found(s: Seq<char>, i: int)
    requires
        0 <= i < s.len(),
    ensures
        found_at(s, ">"@, i) == (s[i] == '>'),
{
    reveal_strlit(">");
    if s[i] == '>' {
        assert(s.subrange(i, i + 1) =~= ">"@);
    } else if found_at(s, ">"@, i) {
        assert(s.subrange(i, i + 1)[0] == '>');
    }
}

/// A name is found up to its closing `>`.
proof fn lemma_name_found(name: Seq<char>, rest: Seq<char>)
    requires
        plain_name(name),
    ensures
        find_from(name + ">\n"@ + rest, ">"@, 0) == Some(name.len() as int),
{
    reveal_strlit(">\n");
    let s = name + ">\n"@ + rest;
    let n = name.len() as int;
    assert(s[n] == '>');
    lemma_char_found(s, n);
    assert forall|j: int| 0 <= j < n implies !found_at(s, ">"@, j) by {
        assert(s[j] == name[j]);
        lemma_char_found(s, j);
    }
    lemma_found_first(s, ">"@, n);
}

/// The text of a value is found up to the end of its block.
proof fn lemma_value_found(t: Seq<char>, rest: Seq<char>)
    requires
        find_from(t, "</parameter>"@, 0) is None,
    ensures
        find_from(seq!['\n'] + t + "\n</parameter>\n"@ + rest, "</parameter>"@, 0) == Some(
            t.len() as int + 2,
        ),
{
    reveal_strlit("</parameter>");
    reveal_strlit("\n</parameter>\n");
    let tag = "</parameter>"@;
    let s = seq!['\n'] + t + "\n</parameter>\n"@ + rest;
    let n = t.len() as int + 2;
    assert(s.subrange(n, n + 12) =~= tag);
    lemma_find_from(t, tag, 0);
    assert forall|j: int| 0 <= j < n implies !found_at(s, tag, j) by {
        if found_at(s, tag, j) {
            let part = s.subrange(j, j + 12);
            assert(part == tag);
            assert(part[0] == '<');
            assert(s[j] == '<');
            assert(s[0] == '\n');
            assert(s[n - 1] == '\n');
            if j - 1 + 12 <= t.len() {
                assert(t.subrange(j - 1, j + 11) =~= part);
                assert(found_at(t, tag, j - 1));
            } else {
                let k = n - 1 - j;
                assert(0 <= k < 12);
                assert(part[k] == s[n - 1]);
                assert(tag[k] != '\n');
            }
        }
    }
    lemma_found_first(s, tag, n);
}

/// The lines around a value are taken off.
proof fn lemma_unwrapped(t: Seq<char>)
    ensures
        unwrap_lines(seq!['\n'] + t + seq!['\n']) == t,
{
    let s = seq!['\n'] + t + seq!['\n'];
    let a = s.subrange(1, s.len() as int);
    assert(a =~= t + seq!['\n']);
    assert(a.drop_last() =~= t);
}

/// A key that comes for the first time has no place yet.
proof fn lemma_no_place(m: Seq<MemberView>, key: Seq<char>)
    requires
        forall|i: int| 0 <= i < m.len() ==> (#[trigger] m[i]).key != key,
    ensures
        key_place(m, key) is None,
    decreases m.len(),
{
    if m.len() > 0 {
        assert(m.last() == m[m.len() - 1]);
        lemma_no_place(m.drop_last(), key);
    }
}

/// A line end before a tag is taken off.
proof fn lemma_line_off(s: Seq<char>)
    requires
        s.len() > 0,
        s[0] == '<',
    ensures
        trim_start(seq!['\n'] + s) == s,
{
    let t = seq!['\n'] + s;
    assert(t.subrange(1, t.len() as int) =~= s);
    assert(white('\n'));
    assert(!white('<'));
    assert(t[0] == '\n');
    assert(trim_start(s) == s);
    assert(trim_start(t) == trim_start(t.subrange(1, t.len() as int)));
}

/// The arguments that were written are the arguments that are read.
proof fn lemma_arguments_read(tools: Seq<ToolView>, name: Seq<char>, m: Seq<MemberView>, i: int)
    requires
        0 <= i <= m.len(),
        distinct_keys(m),
        forall|j: int| 0 <= j < m.len() ==> plain_argument(tools, name, #[trigger] m[j]),
    ensures
        arguments_in(
            seq!['\n'] + arguments_from(m, i) + "</function>"@,
            tools,
            name,
            m.subrange(0, i),
        ) == Some(m),
    decreases m.len() - i,
{
    reveal_strlit("</function>");
    reveal_strlit("<parameter=");
    reveal_strlit("</parameter>");
    reveal_strlit("\n</parameter>\n");
    reveal_strlit(">\n");
    let end = "</function>"@;
    let rest = seq!['\n'] + arguments_from(m, i) + end;
    if i == m.len() {
        assert(rest =~= seq!['\n'] + end);
        lemma_line_off(end);
        assert(end.subrange(0, end.len() as int) =~= end);
        assert(starts(end, end));
        assert(m.subrange(0, i) =~= m);
    } else {
        let x = m[i];
        let t = value_text(x.value);
        let tail = arguments_from(m, i + 1) + end;
        let r = argument_text(x) + tail;
        assert(rest =~= seq!['\n'] + r);
        assert(r[0] == '<');
        assert(r[1] == 'p');
        lemma_line_off(r);
        if starts(r, end) {
            assert(r.subrange(0, end.len() as int)[1] == end[1]);
        }
        assert(r.subrange(0, 11) =~= "<parameter="@);
        assert(starts(r, "<parameter="@));
        let r1 = r.subrange(11, r.len() as int);
        let back = t + "\n</parameter>\n"@ + tail;
        assert(r1 =~= x.key + ">\n"@ + back);
        lemma_name_found(x.key, back);
        let c = x.key.len() as int;
        assert(r1.subrange(0, c) =~= x.key);
        let val = r1.subrange(c + 1, r1.len() as int);
        assert(val =~= seq!['\n'] + t + "\n</parameter>\n"@ + tail);
        lemma_value_found(t, tail);
        let e = t.len() as int + 2;
        assert(val.subrange(0, e) =~= seq!['\n'] + t + seq!['\n']);
        lemma_unwrapped(t);
        let next = val.subrange(e + 12, val.len() as int);
        assert(next =~= seq!['\n'] + arguments_from(m, i + 1) + end);
        let acc = m.subrange(0, i);
        assert forall|j: int| 0 <= j < acc.len() implies (#[trigger] acc[j]).key != x.key by {
            assert(acc[j] == m[j]);
        }
        lemma_no_place(acc, x.key);
        assert(x == (MemberView { key: x.key, value: x.value }));
        assert(with_member(acc, x) =~= m.subrange(0, i + 1));
        lemma_arguments_read(tools, name, m, i + 1);
    }
}

/// A block that was written is read as the call it was written for.
proof fn lemma_block_read(tools: Seq<ToolView>, name: Seq<char>, m: Seq<MemberView>)
    requires
        plain_name(name),
        distinct_keys(m),
        forall|j: int| 0 <= j < m.len() ==> plain_argument(tools, name, #[trigger] m[j]),
    ensures
        call_in(block_text(name, m), tools) == Some(CallView { name, arguments: m }),
{
    reveal_strlit("\n<function=");
    reveal_strlit("<function=");
    reveal_strlit(">\n");
    reveal_strlit("</function>");
    reveal_strlit("</function>\n");
    let block = block_text(name, m);
    let args = arguments_from(m, 0);
    let s = "<function="@ + name + ">\n"@ + args + "</function>"@;
    let line = s + seq!['\n'];
    assert(block =~= seq!['\n'] + line);
    lemma_line_off(line);
    assert(white('\n'));
    assert(!white('>'));
    assert(line.drop_last() =~= s);
    assert(s.last() == '>');
    assert(trim_end(s) == s);
    assert(trim(block) == s);
    assert(s.subrange(0, 10) =~= "<function="@);
    let rest = s.subrange(10, s.len() as int);
    let back = args + "</function>"@;
    assert(rest =~= name + ">\n"@ + back);
    lemma_name_found(name, back);
    let c = name.len() as int;
    assert(rest.subrange(0, c) =~= name);
    assert(rest.subrange(c + 1, rest.len() as int) =~= seq!['\n'] + args + "</function>"@);
    assert(m.subrange(0, 0) =~= Seq::<MemberView>::empty());
    lemma_arguments_read(tools, name, m, 0);
}

/// The first arguments and those that follow are all of them.
proof fn lemma_arguments_said(p: PromptView, m: Seq<MemberView>, n: int)
    requires
        0 <= n <= m.len(),
    ensures
        say_arguments(p, m, n).text + arguments_from(m, n) == p.text + arguments_from(m, 0),
    decreases n,
{
    if n > 0 {
        lemma_arguments_said(p, m, n - 1);
        let q = say_arguments(p, m, n - 1);
        assert(say_arguments(p, m, n).text =~= q.text + argument_text(m[n - 1]));
        assert(say_arguments(p, m, n).text + arguments_from(m, n) =~= q.text + arguments_from(
            m,
            n - 1,
        ));
    }
}

/// A call that is written into a prompt stands there in a block that is read back as the same
/// call: the same name, the same arguments in the same order. It is so of every call whose name
/// and keys can stand in a tag, whose keys are distinct, and whose values have texts that stand
/// for them; the text of a parameter that the tool types as a string always does.
pub proof fn law_written_call_is_read_back(
    p: PromptView,
    call: JsonView,
    tools: Seq<ToolView>,
    name: Seq<char>,
    m: Seq<MemberView>,
)
    requires
        function_of(call).at("name"@) == Some(JsonView::Text(name)),
        call_arguments(function_of(call), name) == Ok::<Seq<MemberView>, Seq<char>>(m),
        plain_name(name),
        distinct_keys(m),
        forall|j: int| 0 <= j < m.len() ==> plain_argument(tools, name, #[trigger] m[j]),
    ensures
        say_call(p, call) is Ok,
        (say_call(p, call)->Ok_0).text == p.text + "<tool_call>"@ + block_text(name, m)
            + "</tool_call>"@,
        call_in(block_text(name, m), tools) == Some(CallView { name, arguments: m }),
{
    reveal_strlit("<tool_call>");
    reveal_strlit("</tool_call>");
    reveal_strlit("<tool_call>\n<function=");
    reveal_strlit("\n<function=");
    reveal_strlit("</function>\n</tool_call>");
    reveal_strlit("</function>\n");
    lemma_block_read(tools, name, m);
    let q = p.say("<tool_call>\n<function="@).say(name).say(">\n"@);
    let n = m.len() as int;
    lemma_arguments_said(q, m, n);
    assert(say_arguments(q, m, n).text + arguments_from(m, n) =~= say_arguments(q, m, n).text);
    assert("<tool_call>\n<function="@ =~= "<tool_call>"@ + "\n<function="@);
    assert("</function>\n</tool_call>"@ =~= "</function>\n"@ + "</tool_call>"@);
    assert((say_call(p, call)->Ok_0).text =~= p.text + "<tool_call>"@ + block_text(name, m)
        + "</tool_call>"@);
}

/// The text of a string stands for it where the tool types the parameter as a string.
pub proof fn law_string_argument_is_read_back(
    tools: Seq<ToolView>,
    name: Seq<char>,
    key: Seq<char>,
    s: Seq<char>,
)
    requires
        parameter_type(tools, name, key) == Some("string"@),
        plain_name(key),
        find_from(s, "</parameter>"@, 0) is None,
    ensures
        plain_argument(tools, name, MemberView { key, value: JsonView::Text(s) }),
{
}

} // verus!
