//! What every rendered prompt holds: each message in its place and in a segment of its own role, the
//! system messages and the tools in front, the opening of the answer at the end.
use crate::chat::{call_arguments, content_of, empty_prompt, is_system, items_content, leading, merged_system, prompt_of};
use crate::chat::{say_arguments, say_call, say_calls, say_opening, say_system, say_tools, say_turn, say_turns};
use crate::chat::{ContentView, MessageView, PromptView, Seg, Thinking, TOOL_INSTRUCTIONS};
use crate::json::{JsonView, MemberView};
use crate::role::Role;
use crate::text::trim;
use crate::tools::{function_of, py_text};
use crate::utf8::{law_byte_len, lemma_byte_len_bounds, lemma_byte_len_concat};
use vstd::prelude::*;
use vstd::utf8::encode_utf8;

verus! {

/// Whether `part` stands somewhere in the first `end` characters of a text.
pub open spec fn stands_in(text: Seq<char>, part: Seq<char>, end: int) -> bool {
    exists|i: int|
        0 <= i && i + part.len() <= end && end <= text.len() && #[trigger] text.subrange(
            i,
            i + part.len(),
        ) == part
}

/// Whether `b` is the prompt `a` with more behind it: its text, its segments, and the segments of
/// what follows.
pub open spec fn continues(a: PromptView, b: PromptView) -> bool {
    &&& a.text.len() <= b.text.len()
    &&& b.text.subrange(0, a.text.len() as int) == a.text
    &&& a.segs.len() <= b.segs.len()
    &&& forall|i: int| 0 <= i < a.segs.len() ==> #[trigger] b.segs[i] == a.segs[i]
    &&& forall|i: int|
        a.segs.len() <= i < b.segs.len() ==> (#[trigger] b.segs[i]).at >= encode_utf8(a.text).len()
}

proof fn lemma_stands(a: Seq<char>, part: Seq<char>, b: Seq<char>, end: int)
    requires
        a.len() + part.len() <= end <= (a + part + b).len(),
    ensures
        stands_in(a + part + b, part, end),
{
    let all = a + part + b;
    assert(all.subrange(a.len() as int, a.len() as int + part.len()) =~= part);
}

proof fn lemma_stands_longer(text: Seq<char>, more: Seq<char>, part: Seq<char>, end: int, last: int)
    requires
        stands_in(text, part, end),
        text.len() <= more.len(),
        more.subrange(0, text.len() as int) == text,
        end <= last <= more.len(),
    ensures
        stands_in(more, part, last),
{
    let i = choose|i: int|
        0 <= i && i + part.len() <= end && end <= text.len() && #[trigger] text.subrange(
            i,
            i + part.len(),
        ) == part;
    assert(more.subrange(i, i + part.len()) =~= text.subrange(i, i + part.len()));
}

proof fn lemma_continues_itself(a: PromptView)
    ensures
        continues(a, a),
{
    assert(a.text.subrange(0, a.text.len() as int) =~= a.text);
}

proof fn lemma_said(a: PromptView, b: PromptView, t: Seq<char>)
    requires
        continues(a, b),
    ensures
        continues(a, b.say(t)),
{
    assert(b.say(t).text.subrange(0, a.text.len() as int) =~= b.text.subrange(0, a.text.len() as int));
}

proof fn lemma_marked(a: PromptView, b: PromptView, role: Role)
    requires
        continues(a, b),
    ensures
        continues(a, b.mark(role)),
{
    let rest = b.text.subrange(a.text.len() as int, b.text.len() as int);
    assert(b.text =~= a.text + rest);
    law_byte_len(a.text);
    law_byte_len(b.text);
    lemma_byte_len_concat(a.text, rest);
    lemma_byte_len_bounds(rest);
    let c = b.mark(role);
    assert forall|i: int| 0 <= i < a.segs.len() implies #[trigger] c.segs[i] == a.segs[i] by {
        assert(c.segs[i] == b.segs[i]);
    }
    assert forall|i: int| a.segs.len() <= i < c.segs.len() implies (#[trigger] c.segs[i]).at
        >= encode_utf8(a.text).len() by {
        if i < b.segs.len() {
            assert(c.segs[i] == b.segs[i]);
        }
    }
}

proof fn lemma_said_tools(a: PromptView, b: PromptView, tools: Seq<JsonView>, n: int)
    requires
        continues(a, b),
    ensures
        continues(a, say_tools(b, tools, n)),
        n >= 0 ==> say_tools(b, tools, n).segs == b.segs,
    decreases n,
{
    if n > 0 {
        lemma_said_tools(a, b, tools, n - 1);
        let q = say_tools(b, tools, n - 1);
        lemma_said(a, q, "\n"@);
        lemma_said(a, q.say("\n"@), py_text(tools[n - 1]));
    }
}

proof fn lemma_said_arguments(a: PromptView, b: PromptView, m: Seq<MemberView>, n: int)
    requires
        continues(a, b),
    ensures
        continues(a, say_arguments(b, m, n)),
    decreases n,
{
    if n > 0 {
        lemma_said_arguments(a, b, m, n - 1);
        let q = say_arguments(b, m, n - 1);
        lemma_said(a, q, "<parameter="@);
        let q = q.say("<parameter="@);
        lemma_said(a, q, m[n - 1].key);
        let q = q.say(m[n - 1].key);
        lemma_said(a, q, ">\n"@);
        let q = q.say(">\n"@);
        let r = match m[n - 1].value {
            JsonView::Text(s) => {
                lemma_said(a, q, s);
                q.say(s)
            },
            v => {
                lemma_said(a, q, py_text(v));
                q.say(py_text(v))
            },
        };
        lemma_said(a, r, "\n</parameter>\n"@);
    }
}

proof fn lemma_said_call(a: PromptView, b: PromptView, call: JsonView)
    requires
        continues(a, b),
    ensures
        say_call(b, call) matches Ok(q) ==> continues(a, q),
{
    let f = function_of(call);
    if let Some(JsonView::Text(name)) = f.at("name"@) {
        if let Ok(m) = call_arguments(f, name) {
            lemma_said(a, b, "<tool_call>\n<function="@);
            let q = b.say("<tool_call>\n<function="@);
            lemma_said(a, q, name);
            lemma_said(a, q.say(name), ">\n"@);
            let q = q.say(name).say(">\n"@);
            lemma_said_arguments(a, q, m, m.len() as int);
            lemma_said(a, say_arguments(q, m, m.len() as int), "</function>\n</tool_call>"@);
        }
    }
}

proof fn lemma_said_calls(a: PromptView, b: PromptView, calls: Seq<JsonView>, content: Seq<char>, n: int)
    requires
        continues(a, b),
    ensures
        say_calls(b, calls, content, n) matches Ok(q) ==> continues(a, q),
    decreases n,
{
    if n > 0 {
        lemma_said_calls(a, b, calls, content, n - 1);
        if let Ok(q) = say_calls(b, calls, content, n - 1) {
            lemma_said(a, q, "\n\n"@);
            lemma_said(a, q, "\n"@);
            lemma_said_call(a, q, calls[n - 1]);
            lemma_said_call(a, q.say("\n\n"@), calls[n - 1]);
            lemma_said_call(a, q.say("\n"@), calls[n - 1]);
        }
    }
}

proof fn lemma_said_turn(a: PromptView, b: PromptView, msgs: Seq<MessageView>, i: int)
    requires
        continues(a, b),
    ensures
        say_turn(b, msgs, i) matches Ok(q) ==> continues(a, q),
{
    let m = msgs[i];
    if let Ok(c) = content_of(m.content, m.role == "user"@) {
        let content = trim(c.text);
        let q = b.with_images(c.images);
        assert(continues(a, q));
        if is_system(m) {
        } else if m.role == "user"@ {
            lemma_marked(a, q, Role::User);
            let u = q.mark(Role::User);
            lemma_said(a, u, "<|im_start|>user\n"@);
            let u = u.say("<|im_start|>user\n"@);
            lemma_said(a, u, content);
            lemma_said(a, u.say(content), "<|im_end|>\n"@);
        } else if m.role == "assistant"@ {
            lemma_marked(a, q, Role::Reasoning);
            let u = q.mark(Role::Reasoning);
            lemma_said(a, u, "<|im_start|>assistant\n<think>\n"@);
            let u = u.say("<|im_start|>assistant\n<think>\n"@);
            lemma_said(a, u, trim(m.reasoning));
            let u = u.say(trim(m.reasoning));
            lemma_said(a, u, "\n</think>"@);
            let u = u.say("\n</think>"@);
            lemma_marked(a, u, Role::Assistant);
            let u = u.mark(Role::Assistant);
            lemma_said(a, u, "\n\n"@);
            let u = u.say("\n\n"@);
            lemma_said(a, u, content);
            let u = u.say(content);
            lemma_said_calls(a, u, m.calls, content, m.calls.len() as int);
            if let Ok(d) = say_calls(u, m.calls, content, m.calls.len() as int) {
                lemma_said(a, d, "<|im_end|>\n"@);
            }
        } else if m.role == "tool"@ {
            let u = if i == 0 || msgs[i - 1].role != "tool"@ {
                lemma_marked(a, q, Role::Tool);
                lemma_said(a, q.mark(Role::Tool), "<|im_start|>user"@);
                q.mark(Role::Tool).say("<|im_start|>user"@)
            } else {
                q
            };
            lemma_said(a, u, "\n<tool_response>\n"@);
            let u = u.say("\n<tool_response>\n"@);
            lemma_said(a, u, content);
            let u = u.say(content);
            lemma_said(a, u, "\n</tool_response>"@);
            let u = u.say("\n</tool_response>"@);
            lemma_said(a, u, "<|im_end|>\n"@);
        }
    }
}

proof fn lemma_said_turns(a: PromptView, b: PromptView, msgs: Seq<MessageView>, from: int, n: int)
    requires
        continues(a, b),
    ensures
        say_turns(b, msgs, from, n) matches Ok(q) ==> continues(a, q),
    decreases n - from,
{
    if n > from {
        lemma_said_turns(a, b, msgs, from, n - 1);
        if let Ok(q) = say_turns(b, msgs, from, n - 1) {
            lemma_said_turn(a, q, msgs, n - 1);
        }
    }
}

proof fn lemma_opened(a: PromptView, b: PromptView, mode: Thinking)
    requires
        continues(a, b),
    ensures
        continues(a, say_opening(b, mode)),
        say_opening(b, mode).segs.len() == b.segs.len() + 1,
{
    let (role, t) = if mode == Thinking::Off {
        (Role::Assistant, "<think>\n\n</think>\n\n"@)
    } else {
        (Role::Reasoning, "<think>\n"@)
    };
    lemma_marked(a, b, role);
    lemma_said(a, b.mark(role), "<|im_start|>assistant\n"@);
    lemma_said(a, b.mark(role).say("<|im_start|>assistant\n"@), t);
}

/// A prompt begins with its system block.
proof fn lemma_begins_with_the_system_block(
    msgs: Seq<MessageView>,
    mode: Thinking,
    tools: Seq<JsonView>,
    merged: Seq<char>,
)
    requires
        prompt_of(msgs, mode, tools) is Ok,
        merged_system(msgs, leading(msgs, 0)) == Ok::<Seq<char>, Seq<char>>(merged),
    ensures
        ({
            let s = say_system(tools, merged, mode.instruction_text());
            let p = prompt_of(msgs, mode, tools)->Ok_0;
            &&& continues(s, p)
            &&& p.segs.len() > s.segs.len()
        }),
{
    let s = say_system(tools, merged, mode.instruction_text());
    lemma_continues_itself(s);
    let n = leading(msgs, 0);
    lemma_said_turns(s, s, msgs, n, msgs.len() as int);
    let q = say_turns(s, msgs, n, msgs.len() as int)->Ok_0;
    lemma_opened(s, q, mode);
}

proof fn lemma_leading(msgs: Seq<MessageView>, i: int, k: int)
    requires
        0 <= i <= k <= msgs.len(),
        forall|j: int| i <= j < k ==> is_system(#[trigger] msgs[j]),
    ensures
        k <= leading(msgs, i) <= msgs.len(),
    decreases msgs.len() - i,
{
    if i < msgs.len() && is_system(msgs[i]) {
        lemma_leading(msgs, i + 1, if i < k { k } else { i + 1 });
    } else if i < k {
        assert(is_system(msgs[i]));
    }
}

proof fn lemma_merged_holds(msgs: Seq<MessageView>, k: int, n: int, c: ContentView)
    requires
        0 <= k < n <= msgs.len(),
        merged_system(msgs, n) is Ok,
        content_of(msgs[k].content, false) == Ok::<ContentView, Seq<char>>(c),
        trim(c.text).len() > 0,
    ensures
        ({
            let m = merged_system(msgs, n)->Ok_0;
            stands_in(m, trim(c.text), m.len() as int)
        }),
    decreases n,
{
    let t = trim(c.text);
    let m = merged_system(msgs, n)->Ok_0;
    let before = merged_system(msgs, n - 1)->Ok_0;
    if k == n - 1 {
        if before.len() == 0 {
            assert(m =~= Seq::<char>::empty() + t + Seq::<char>::empty());
            lemma_stands(Seq::empty(), t, Seq::empty(), m.len() as int);
        } else {
            assert(m =~= before.push('\n') + t + Seq::<char>::empty());
            lemma_stands(before.push('\n'), t, Seq::empty(), m.len() as int);
        }
    } else {
        lemma_merged_holds(msgs, k, n - 1, c);
        assert(m.subrange(0, before.len() as int) =~= before);
        lemma_stands_longer(before, m, t, before.len() as int, m.len() as int);
    }
}

/// Where the system block stands in a prompt: the first segment, of the system's role, up to the
/// second.
proof fn lemma_part_of_the_system_block(
    msgs: Seq<MessageView>,
    mode: Thinking,
    tools: Seq<JsonView>,
    merged: Seq<char>,
    part: Seq<char>,
)
    requires
        prompt_of(msgs, mode, tools) is Ok,
        merged_system(msgs, leading(msgs, 0)) == Ok::<Seq<char>, Seq<char>>(merged),
        ({
            let s = say_system(tools, merged, mode.instruction_text());
            &&& stands_in(s.text, part, s.text.len() as int)
            &&& s.segs == seq![Seg { at: 0, role: Role::System }]
        }),
    ensures
        stands_first(prompt_of(msgs, mode, tools)->Ok_0, part),
{
    let s = say_system(tools, merged, mode.instruction_text());
    let p = prompt_of(msgs, mode, tools)->Ok_0;
    lemma_begins_with_the_system_block(msgs, mode, tools, merged);
    let end = s.text.len() as int;
    lemma_stands_longer(s.text, p.text, part, end, end);
    assert(p.segs[0] == s.segs[0]);
    assert(p.segs[1].at >= encode_utf8(s.text).len());
    assert(stands_in(p.text, part, end) && encode_utf8(p.text.subrange(0, end)).len() <= p.segs[1].at);
}

/// Whether a part stands in the first segment of a prompt, and that is the system's.
pub open spec fn stands_first(p: PromptView, part: Seq<char>) -> bool {
    &&& p.segs.len() > 1
    &&& p.segs[0] == (Seg { at: 0, role: Role::System })
    &&& exists|end: int|
        #[trigger] stands_in(p.text, part, end) && encode_utf8(p.text.subrange(0, end)).len()
            <= p.segs[1].at
}

proof fn lemma_empty_encoding()
    ensures
        encode_utf8(Seq::<char>::empty()).len() == 0,
{
    law_byte_len(Seq::empty());
}

/// The text of every system message that leads, trimmed, stands in the first segment of the prompt,
/// with or without tools.
pub proof fn law_system_messages_stand_first(
    msgs: Seq<MessageView>,
    mode: Thinking,
    tools: Seq<JsonView>,
    k: int,
    c: ContentView,
)
    requires
        prompt_of(msgs, mode, tools) is Ok,
        0 <= k < msgs.len(),
        forall|j: int|
            0 <= j <= k ==> (#[trigger] msgs[j]).role == "system"@ || msgs[j].role == "developer"@,
        content_of(msgs[k].content, false) == Ok::<ContentView, Seq<char>>(c),
        trim(c.text).len() > 0,
    ensures
        stands_first(prompt_of(msgs, mode, tools)->Ok_0, trim(c.text)),
{
    lemma_leading(msgs, 0, k + 1);
    let n = leading(msgs, 0);
    let merged = merged_system(msgs, n)->Ok_0;
    lemma_merged_holds(msgs, k, n, c);
    let instr = mode.instruction_text();
    let s = say_system(tools, merged, instr);
    lemma_system_block(tools, merged, instr);
    let t = trim(c.text);
    let last = s.text.len() - "<|im_end|>\n"@.len();
    let front = s.text.subrange(0, last - merged.len());
    let i = choose|i: int|
        0 <= i && i + t.len() <= merged.len() && #[trigger] merged.subrange(i, i + t.len()) == t;
    let at = front.len() + i;
    assert(s.text.subrange(at, at + t.len()) =~= t) by {
        assert(s.text.subrange(last - merged.len(), last) == merged);
        assert(s.text.subrange(at, at + t.len()) =~= s.text.subrange(last - merged.len(), last).subrange(
            i,
            i + t.len(),
        ));
    }
    assert(stands_in(s.text, t, s.text.len() as int));
    lemma_part_of_the_system_block(msgs, mode, tools, merged, t);
}

/// The system block: one segment, at whose end the merged messages stand.
proof fn lemma_system_block(tools: Seq<JsonView>, merged: Seq<char>, instr: Seq<char>)
    ensures
        ({
            let s = say_system(tools, merged, instr);
            &&& tools.len() > 0 || merged.len() > 0 || instr.len() > 0 ==> s.segs == seq![
                Seg { at: 0, role: Role::System },
            ]
            &&& tools.len() == 0 && merged.len() == 0 && instr.len() == 0 ==> s == empty_prompt()
            &&& merged.len() > 0 ==> {
                let last = s.text.len() - "<|im_end|>\n"@.len();
                &&& last >= merged.len()
                &&& s.text.subrange(last - merged.len(), last) == merged
            }
        }),
{
    lemma_empty_encoding();
    let s = say_system(tools, merged, instr);
    let one = seq![Seg { at: 0, role: Role::System }];
    let p = empty_prompt().mark(Role::System);
    assert(p.segs =~= one);
    let end = "<|im_end|>\n"@;
    if merged.len() > 0 {
        let last = s.text.len() - end.len();
        if tools.len() > 0 {
            let a = crate::chat::say_instruction(p.say("<|im_start|>system\n"@), instr);
            let b = a.say("# Tools\n\nYou have access to the following functions:\n\n<tools>"@);
            lemma_continues_itself(b);
            lemma_said_tools(b, b, tools, tools.len() as int);
            let c = say_tools(b, tools, tools.len() as int).say("\n</tools>"@).say(TOOL_INSTRUCTIONS@);
            assert(s.text =~= c.text + "\n\n"@ + merged + end);
        } else {
            let a = crate::chat::say_instruction(p.say("<|im_start|>system\n"@), instr);
            assert(s.text =~= a.text + merged + end);
        }
        assert(s.text.subrange(last - merged.len(), last) =~= merged);
    } else if tools.len() > 0 {
        let a = crate::chat::say_instruction(p.say("<|im_start|>system\n"@), instr);
        let b = a.say("# Tools\n\nYou have access to the following functions:\n\n<tools>"@);
        lemma_continues_itself(b);
        lemma_said_tools(b, b, tools, tools.len() as int);
    }
}

proof fn lemma_tool_stands(b: PromptView, tools: Seq<JsonView>, k: int, n: int)
    requires
        0 <= k < n <= tools.len(),
    ensures
        ({
            let q = say_tools(b, tools, n);
            stands_in(q.text, "\n"@ + py_text(tools[k]), q.text.len() as int)
        }),
    decreases n,
{
    let part = "\n"@ + py_text(tools[k]);
    let r = say_tools(b, tools, n - 1);
    let q = say_tools(b, tools, n);
    if k == n - 1 {
        assert(q.text =~= r.text + part + Seq::<char>::empty());
        lemma_stands(r.text, part, Seq::empty(), q.text.len() as int);
    } else {
        lemma_tool_stands(b, tools, k, n - 1);
        assert(q.text.subrange(0, r.text.len() as int) =~= r.text);
        lemma_stands_longer(r.text, q.text, part, r.text.len() as int, q.text.len() as int);
    }
}

/// Every tool stands in the first segment of the prompt, as JSON on a line of its own, and so does
/// how to call one.
pub proof fn law_tools_stand_first(msgs: Seq<MessageView>, mode: Thinking, tools: Seq<JsonView>, k: int)
    requires
        prompt_of(msgs, mode, tools) is Ok,
        0 <= k < tools.len(),
    ensures
        stands_first(prompt_of(msgs, mode, tools)->Ok_0, "\n"@ + py_text(tools[k])),
        stands_first(prompt_of(msgs, mode, tools)->Ok_0, TOOL_INSTRUCTIONS@),
{
    let merged = merged_system(msgs, leading(msgs, 0))->Ok_0;
    let instr = mode.instruction_text();
    let s = say_system(tools, merged, instr);
    lemma_system_block(tools, merged, instr);
    let p = empty_prompt().mark(Role::System);
    let a = crate::chat::say_instruction(p.say("<|im_start|>system\n"@), instr);
    let b = a.say("# Tools\n\nYou have access to the following functions:\n\n<tools>"@);
    let t = say_tools(b, tools, tools.len() as int);
    lemma_tool_stands(b, tools, k, tools.len() as int);
    let part = "\n"@ + py_text(tools[k]);
    let end = s.text.len() as int;
    let u = t.say("\n</tools>"@);
    let rest = s.text.subrange(u.text.len() as int + TOOL_INSTRUCTIONS@.len(), end);
    assert(s.text =~= u.text + TOOL_INSTRUCTIONS@ + rest);
    lemma_stands(u.text, TOOL_INSTRUCTIONS@, rest, end);
    assert(s.text.subrange(0, t.text.len() as int) =~= t.text);
    lemma_stands_longer(t.text, s.text, part, t.text.len() as int, end);
    lemma_part_of_the_system_block(msgs, mode, tools, merged, part);
    lemma_part_of_the_system_block(msgs, mode, tools, merged, TOOL_INSTRUCTIONS@);
}

/// The instruction of a thinking mode that has one stands in the first segment of the prompt.
pub proof fn law_instruction_stands_first(msgs: Seq<MessageView>, mode: Thinking, tools: Seq<JsonView>)
    requires
        prompt_of(msgs, mode, tools) is Ok,
        mode == Thinking::XHigh || mode == Thinking::Low,
    ensures
        stands_first(prompt_of(msgs, mode, tools)->Ok_0, mode.instruction_text()),
        mode == Thinking::XHigh ==> mode.instruction_text().subrange(0, 33)
            == "Reasoning effort is set to xhigh."@,
        mode == Thinking::Low ==> mode.instruction_text().subrange(0, 31)
            == "Reasoning effort is set to low."@,
{
    lemma_instructions();
    let merged = merged_system(msgs, leading(msgs, 0))->Ok_0;
    let instr = mode.instruction_text();
    let s = say_system(tools, merged, instr);
    lemma_system_block(tools, merged, instr);
    let front = "<|im_start|>system\n"@;
    let end = s.text.len() as int;
    let p = empty_prompt().mark(Role::System).say(front);
    assert(p.text =~= front);
    let a = crate::chat::say_instruction(p, instr);
    if tools.len() > 0 {
        let b = a.say("# Tools\n\nYou have access to the following functions:\n\n<tools>"@);
        lemma_continues_itself(b);
        lemma_said_tools(b, b, tools, tools.len() as int);
        let t = say_tools(b, tools, tools.len() as int);
        assert(t.text.subrange(0, b.text.len() as int) == b.text);
        assert(s.text.subrange(0, b.text.len() as int) =~= b.text);
        assert(b.text.subrange(front.len() as int, front.len() as int + instr.len()) =~= instr);
        assert(s.text.subrange(front.len() as int, front.len() as int + instr.len()) =~= b.text.subrange(
            front.len() as int,
            front.len() as int + instr.len(),
        ));
    } else {
        assert(s.text.subrange(front.len() as int, front.len() as int + instr.len()) =~= instr);
    }
    assert(stands_in(s.text, instr, end));
    lemma_part_of_the_system_block(msgs, mode, tools, merged, instr);
}

proof fn lemma_instructions()
    ensures
        Thinking::XHigh.instruction_text().len() > 33,
        Thinking::XHigh.instruction_text().subrange(0, 33) == "Reasoning effort is set to xhigh."@,
        Thinking::Low.instruction_text().len() > 31,
        Thinking::Low.instruction_text().subrange(0, 31) == "Reasoning effort is set to low."@,
        Thinking::Medium.instruction_text().len() == 0,
        Thinking::Off.instruction_text().len() == 0,
{
    reveal_strlit("Reasoning effort is set to xhigh. Please think carefully through the task, validate key assumptions, consider plausible alternatives, and prioritize correctness, consistency, and clarity in the final answer.");
    reveal_strlit("Reasoning effort is set to low. Keep your thinking brief and focused, moving directly to the conclusion without unnecessary elaboration.");
    reveal_strlit("Reasoning effort is set to xhigh.");
    reveal_strlit("Reasoning effort is set to low.");
    reveal_strlit("");
    assert(Thinking::XHigh.instruction_text().subrange(0, 33) =~= "Reasoning effort is set to xhigh."@);
    assert(Thinking::Low.instruction_text().subrange(0, 31) =~= "Reasoning effort is set to low."@);
}

/// Without tools, without a system message in front and in a mode that has no instruction there is no
/// system block: the prompt begins with its first message.
pub proof fn law_no_system_block_is_made_up(msgs: Seq<MessageView>, mode: Thinking)
    requires
        prompt_of(msgs, mode, Seq::empty()) is Ok,
        mode == Thinking::Medium || mode == Thinking::Off,
        msgs[0].role == "user"@,
    ensures
        ({
            let p = prompt_of(msgs, mode, Seq::empty())->Ok_0;
            &&& p.segs[0] == (Seg { at: 0, role: Role::User })
            &&& p.text.subrange(0, "<|im_start|>user\n"@.len() as int) == "<|im_start|>user\n"@
        }),
{
    let m = "<|im_start|>user\n"@;
    lemma_instructions();
    lemma_empty_encoding();
    reveal_strlit("user");
    reveal_strlit("system");
    reveal_strlit("developer");
    assert("user"@.len() == 4 && "system"@.len() == 6 && "developer"@.len() == 9);
    assert(!is_system(msgs[0]));
    assert(leading(msgs, 0) == 0);
    let e = empty_prompt();
    assert(say_system(Seq::<JsonView>::empty(), Seq::empty(), mode.instruction_text()) == e);
    let last = msgs.len() as int;
    lemma_first_turn(e, msgs, 0, last);
    let first = say_turn(e, msgs, 0)->Ok_0;
    lemma_continues_itself(first);
    lemma_said_turns(first, first, msgs, 1, last);
    let q = say_turns(first, msgs, 1, last)->Ok_0;
    lemma_opened(first, q, mode);
    let p = prompt_of(msgs, mode, Seq::empty())->Ok_0;
    assert(first.segs[0] == p.segs[0]);
    assert(first.text.subrange(0, m.len() as int) =~= m);
    assert(p.text.subrange(0, m.len() as int) =~= p.text.subrange(0, first.text.len() as int).subrange(
        0,
        m.len() as int,
    ));
}

/// The turns are the first one and those behind it.
proof fn lemma_first_turn(p: PromptView, msgs: Seq<MessageView>, from: int, n: int)
    requires
        0 <= from < n <= msgs.len(),
    ensures
        say_turns(p, msgs, from, n) == match say_turn(p, msgs, from) {
            Ok(q) => say_turns(q, msgs, from + 1, n),
            Err(e) => Err(e),
        },
    decreases n - from,
{
    if n > from + 1 {
        lemma_first_turn(p, msgs, from, n - 1);
    } else {
        assert(say_turns(p, msgs, from, from) == Ok::<PromptView, Seq<char>>(p));
    }
}

/// The opening of the answer: an open think block, or an empty one where thinking is off.
pub open spec fn opening(mode: Thinking) -> Seq<char> {
    if mode == Thinking::Off {
        "<|im_start|>assistant\n"@ + "<think>\n\n</think>\n\n"@
    } else {
        "<|im_start|>assistant\n"@ + "<think>\n"@
    }
}

/// Every prompt ends with the opening of the answer, in a segment of its own: of the reasoning, or of
/// the answer where thinking is off.
pub proof fn law_prompt_ends_with_the_opening(
    msgs: Seq<MessageView>,
    mode: Thinking,
    tools: Seq<JsonView>,
) -> (body: Seq<char>)
    requires
        prompt_of(msgs, mode, tools) is Ok,
    ensures
        ({
            let p = prompt_of(msgs, mode, tools)->Ok_0;
            &&& p.text == body + opening(mode)
            &&& p.segs.last() == (Seg {
                at: encode_utf8(body).len(),
                role: if mode == Thinking::Off { Role::Assistant } else { Role::Reasoning },
            })
        }),
{
    let n = leading(msgs, 0);
    let merged = merged_system(msgs, n)->Ok_0;
    let s = say_system(tools, merged, mode.instruction_text());
    let q = say_turns(s, msgs, n, msgs.len() as int)->Ok_0;
    let p = prompt_of(msgs, mode, tools)->Ok_0;
    assert(p.text =~= q.text + opening(mode));
    q.text
}

proof fn lemma_leading_of_more(msgs: Seq<MessageView>, m: MessageView, i: int)
    requires
        !is_system(m),
        0 <= i <= msgs.len(),
    ensures
        leading(msgs.push(m), i) == leading(msgs, i),
        i <= leading(msgs, i) <= msgs.len(),
    decreases msgs.len() - i,
{
    if i < msgs.len() && is_system(msgs[i]) {
        lemma_leading_of_more(msgs, m, i + 1);
        assert(msgs.push(m)[i] == msgs[i]);
    } else if i < msgs.len() {
        assert(msgs.push(m)[i] == msgs[i]);
    }
}

proof fn lemma_merged_of_more(msgs: Seq<MessageView>, m: MessageView, n: int)
    requires
        n <= msgs.len(),
    ensures
        merged_system(msgs.push(m), n) == merged_system(msgs, n),
    decreases n,
{
    if n > 0 {
        lemma_merged_of_more(msgs, m, n - 1);
        assert(msgs.push(m)[n - 1] == msgs[n - 1]);
    }
}

/// Where the next message is no tool's answer, or the last one is none, the messages before it are
/// rendered as without it.
proof fn lemma_turns_of_more(p: PromptView, msgs: Seq<MessageView>, m: MessageView, from: int, n: int)
    requires
        0 <= from,
        n <= msgs.len(),
        m.role != "tool"@ || n < msgs.len() || (n > 0 && msgs[n - 1].role != "tool"@) || n <= from,
    ensures
        say_turns(p, msgs.push(m), from, n) == say_turns(p, msgs, from, n),
    decreases n - from,
{
    if n > from {
        lemma_turns_of_more(p, msgs, m, from, n - 1);
        let more = msgs.push(m);
        assert(more[n - 1] == msgs[n - 1]);
        if n > 1 {
            assert(more[n - 2] == msgs[n - 2]);
        }
        if n < msgs.len() {
            assert(more[n] == msgs[n]);
        } else {
            assert(more[n] == m);
        }
    }
}

/// What a prompt with one more message has over the one without it: both begin with the same body.
pub open spec fn adds(
    msgs: Seq<MessageView>,
    m: MessageView,
    mode: Thinking,
    tools: Seq<JsonView>,
    body: Seq<char>,
    before: Seq<char>,
    after: Seq<char>,
    images: Seq<Seq<char>>,
) -> bool {
    &&& prompt_of(msgs, mode, tools) matches Ok(p) && prompt_of(msgs.push(m), mode, tools) matches Ok(q)
        && p.text == body + before + opening(mode) && q.text == body + after + opening(mode) && q.images
        == p.images + images
}

proof fn lemma_two_prompts(
    msgs: Seq<MessageView>,
    m: MessageView,
    mode: Thinking,
    tools: Seq<JsonView>,
) -> (r: PromptView)
    requires
        msgs.len() > 0,
        !is_system(m),
        m.role != "tool"@ || msgs.last().role != "tool"@,
        prompt_of(msgs.push(m), mode, tools) is Ok,
    ensures
        prompt_of(msgs, mode, tools) == Ok::<PromptView, Seq<char>>(say_opening(r, mode)),
        say_turn(r, msgs.push(m), msgs.len() as int) is Ok,
        prompt_of(msgs.push(m), mode, tools) == Ok::<PromptView, Seq<char>>(
            say_opening(say_turn(r, msgs.push(m), msgs.len() as int)->Ok_0, mode),
        ),
{
    let more = msgs.push(m);
    let n = leading(msgs, 0);
    let len = msgs.len() as int;
    lemma_leading_of_more(msgs, m, 0);
    lemma_merged_of_more(msgs, m, n);
    let merged = merged_system(msgs, n)->Ok_0;
    let s = say_system(tools, merged, mode.instruction_text());
    assert(msgs.last() == msgs[len - 1]);
    lemma_turns_of_more(s, msgs, m, n, len);
    say_turns(s, msgs, n, len)->Ok_0
}

/// A user's message adds to the prompt its trimmed text between the marks of a user's turn, in a
/// segment of the user, and its images; and it changes nothing before it.
pub proof fn law_user_message_is_added(
    msgs: Seq<MessageView>,
    m: MessageView,
    mode: Thinking,
    tools: Seq<JsonView>,
    c: ContentView,
) -> (body: Seq<char>)
    requires
        msgs.len() > 0,
        m.role == "user"@,
        content_of(m.content, true) == Ok::<ContentView, Seq<char>>(c),
        prompt_of(msgs.push(m), mode, tools) is Ok,
    ensures
        adds(
            msgs,
            m,
            mode,
            tools,
            body,
            Seq::empty(),
            "<|im_start|>user\n"@ + trim(c.text) + "<|im_end|>\n"@,
            c.images,
        ),
        ({
            let q = prompt_of(msgs.push(m), mode, tools)->Ok_0;
            &&& q.segs.len() >= 2
            &&& q.segs[q.segs.len() - 2] == (Seg { at: encode_utf8(body).len(), role: Role::User })
        }),
{
    lemma_role_names();
    let r = lemma_two_prompts(msgs, m, mode, tools);
    let more = msgs.push(m);
    assert(more[msgs.len() as int] == m);
    let p = prompt_of(msgs, mode, tools)->Ok_0;
    let q = prompt_of(more, mode, tools)->Ok_0;
    assert(p.text =~= r.text + Seq::<char>::empty() + opening(mode));
    assert(q.text =~= r.text + ("<|im_start|>user\n"@ + trim(c.text) + "<|im_end|>\n"@) + opening(mode));
    r.text
}

/// An assistant's message without calls adds its reasoning in a think block, and behind it its
/// trimmed text, in segments of their own roles; and it changes nothing before it.
pub proof fn law_assistant_message_is_added(
    msgs: Seq<MessageView>,
    m: MessageView,
    mode: Thinking,
    tools: Seq<JsonView>,
    c: ContentView,
) -> (body: Seq<char>)
    requires
        msgs.len() > 0,
        m.role == "assistant"@,
        m.calls.len() == 0,
        content_of(m.content, false) == Ok::<ContentView, Seq<char>>(c),
        prompt_of(msgs.push(m), mode, tools) is Ok,
    ensures
        adds(
            msgs,
            m,
            mode,
            tools,
            body,
            Seq::empty(),
            "<|im_start|>assistant\n<think>\n"@ + trim(m.reasoning) + "\n</think>"@ + "\n\n"@ + trim(
                c.text,
            ) + "<|im_end|>\n"@,
            c.images,
        ),
        ({
            let q = prompt_of(msgs.push(m), mode, tools)->Ok_0;
            let thought = "<|im_start|>assistant\n<think>\n"@ + trim(m.reasoning) + "\n</think>"@;
            &&& q.segs.len() >= 3
            &&& q.segs[q.segs.len() - 3] == (Seg { at: encode_utf8(body).len(), role: Role::Reasoning })
            &&& q.segs[q.segs.len() - 2] == (Seg {
                at: encode_utf8(body + thought).len(),
                role: Role::Assistant,
            })
        }),
{
    lemma_role_names();
    let r = lemma_two_prompts(msgs, m, mode, tools);
    let more = msgs.push(m);
    assert(more[msgs.len() as int] == m);
    let p = prompt_of(msgs, mode, tools)->Ok_0;
    let q = prompt_of(more, mode, tools)->Ok_0;
    let thought = "<|im_start|>assistant\n<think>\n"@ + trim(m.reasoning) + "\n</think>"@;
    let u = r.with_images(c.images).mark(Role::Reasoning).say("<|im_start|>assistant\n<think>\n"@).say(
        trim(m.reasoning),
    ).say("\n</think>"@);
    assert(u.text =~= r.text + thought);
    assert(p.text =~= r.text + Seq::<char>::empty() + opening(mode));
    assert(q.text =~= r.text + ("<|im_start|>assistant\n<think>\n"@ + trim(m.reasoning) + "\n</think>"@
        + "\n\n"@ + trim(c.text) + "<|im_end|>\n"@) + opening(mode));
    r.text
}

/// The first of the tools' answers adds a turn of its own with the trimmed text of the answer between
/// its tags, in a segment of the tools; and it changes nothing before it.
pub proof fn law_first_tool_answer_is_added(
    msgs: Seq<MessageView>,
    m: MessageView,
    mode: Thinking,
    tools: Seq<JsonView>,
    c: ContentView,
) -> (body: Seq<char>)
    requires
        msgs.len() > 0,
        msgs.last().role != "tool"@,
        m.role == "tool"@,
        content_of(m.content, false) == Ok::<ContentView, Seq<char>>(c),
        prompt_of(msgs.push(m), mode, tools) is Ok,
    ensures
        adds(
            msgs,
            m,
            mode,
            tools,
            body,
            Seq::empty(),
            "<|im_start|>user"@ + "\n<tool_response>\n"@ + trim(c.text) + "\n</tool_response>"@
                + "<|im_end|>\n"@,
            c.images,
        ),
        ({
            let q = prompt_of(msgs.push(m), mode, tools)->Ok_0;
            &&& q.segs.len() >= 2
            &&& q.segs[q.segs.len() - 2] == (Seg { at: encode_utf8(body).len(), role: Role::Tool })
        }),
{
    lemma_role_names();
    let r = lemma_two_prompts(msgs, m, mode, tools);
    let more = msgs.push(m);
    let len = msgs.len() as int;
    assert(more[len] == m && more[len - 1] == msgs.last());
    let p = prompt_of(msgs, mode, tools)->Ok_0;
    let q = prompt_of(more, mode, tools)->Ok_0;
    assert(p.text =~= r.text + Seq::<char>::empty() + opening(mode));
    assert(q.text =~= r.text + ("<|im_start|>user"@ + "\n<tool_response>\n"@ + trim(c.text)
        + "\n</tool_response>"@ + "<|im_end|>\n"@) + opening(mode));
    r.text
}

/// A further answer of the tools goes into the turn of the one before it.
pub proof fn law_next_tool_answer_joins_the_turn(
    msgs: Seq<MessageView>,
    m: MessageView,
    mode: Thinking,
    tools: Seq<JsonView>,
    c: ContentView,
) -> (body: Seq<char>)
    requires
        msgs.len() > 0,
        msgs.last().role == "tool"@,
        m.role == "tool"@,
        content_of(m.content, false) == Ok::<ContentView, Seq<char>>(c),
        prompt_of(msgs.push(m), mode, tools) is Ok,
    ensures
        adds(
            msgs,
            m,
            mode,
            tools,
            body,
            "<|im_end|>\n"@,
            "\n<tool_response>\n"@ + trim(c.text) + "\n</tool_response>"@ + "<|im_end|>\n"@,
            c.images,
        ),
        (prompt_of(msgs.push(m), mode, tools)->Ok_0).segs.len() == (prompt_of(
            msgs,
            mode,
            tools,
        )->Ok_0).segs.len(),
{
    lemma_role_names();
    let more = msgs.push(m);
    let n = leading(msgs, 0);
    let len = msgs.len() as int;
    lemma_leading_of_more(msgs, m, 0);
    lemma_merged_of_more(msgs, m, n);
    let merged = merged_system(msgs, n)->Ok_0;
    let s = say_system(tools, merged, mode.instruction_text());
    lemma_not_leading(msgs, 0, len - 1);
    lemma_turns_of_more(s, msgs, m, n, len - 1);
    assert(more[len] == m && more[len - 1] == msgs[len - 1]);
    if len > 1 {
        assert(more[len - 2] == msgs[len - 2]);
    }
    let before = say_turns(s, msgs, n, len - 1)->Ok_0;
    assert(say_turns(s, more, n, len) == say_turn(before, more, len - 1));
    let b = say_turn(before, more, len - 1)->Ok_0;
    assert(say_turn(before, msgs, len - 1) == Ok::<PromptView, Seq<char>>(b.say("<|im_end|>\n"@)));
    let p = prompt_of(msgs, mode, tools)->Ok_0;
    let q = prompt_of(more, mode, tools)->Ok_0;
    assert(p.text =~= b.text + "<|im_end|>\n"@ + opening(mode));
    assert(q.text =~= b.text + ("\n<tool_response>\n"@ + trim(c.text) + "\n</tool_response>"@
        + "<|im_end|>\n"@) + opening(mode));
    b.text
}

proof fn lemma_not_leading(msgs: Seq<MessageView>, i: int, k: int)
    requires
        0 <= i <= k < msgs.len(),
        !is_system(msgs[k]),
    ensures
        leading(msgs, i) <= k,
    decreases msgs.len() - i,
{
    if is_system(msgs[i]) {
        lemma_not_leading(msgs, i + 1, k);
    }
}

proof fn lemma_role_names()
    ensures
        "user"@ != "system"@ && "user"@ != "developer"@ && "user"@ != "tool"@ && "user"@ != "assistant"@,
        "assistant"@ != "system"@ && "assistant"@ != "developer"@ && "assistant"@ != "tool"@,
        "tool"@ != "system"@ && "tool"@ != "developer"@,
{
    reveal_strlit("user");
    reveal_strlit("system");
    reveal_strlit("developer");
    reveal_strlit("tool");
    reveal_strlit("assistant");
    assert("user"@[0] == 'u' && "tool"@[0] == 't' && "assistant"@[0] == 'a' && "system"@[0] == 's'
        && "developer"@[0] == 'd');
}

/// A conversation that is rendered has messages, and behind the system messages that lead only those
/// of users, of the assistant and of tools.
pub proof fn law_rendered_roles_are_known(
    msgs: Seq<MessageView>,
    mode: Thinking,
    tools: Seq<JsonView>,
    k: int,
    j: int,
)
    requires
        prompt_of(msgs, mode, tools) is Ok,
        0 <= k <= j < msgs.len(),
        msgs[k].role != "system"@ && msgs[k].role != "developer"@,
    ensures
        msgs[j].role == "user"@ || msgs[j].role == "assistant"@ || msgs[j].role == "tool"@,
        msgs.len() > 0,
{
    lemma_not_leading(msgs, 0, k);
    let n = leading(msgs, 0);
    let merged = merged_system(msgs, n)->Ok_0;
    let s = say_system(tools, merged, mode.instruction_text());
    lemma_turn_is_said(s, msgs, n, j, msgs.len() as int);
}

proof fn lemma_turn_is_said(p: PromptView, msgs: Seq<MessageView>, from: int, j: int, n: int)
    requires
        from <= j < n,
        say_turns(p, msgs, from, n) is Ok,
    ensures
        exists|q: PromptView| #[trigger] say_turn(q, msgs, j) is Ok,
    decreases n - from,
{
    let q = say_turns(p, msgs, from, n - 1)->Ok_0;
    assert(say_turn(q, msgs, n - 1) is Ok);
    if j < n - 1 {
        lemma_turn_is_said(p, msgs, from, j, n - 1);
    }
}

/// A text item adds its text to the content of a message; an image adds a placeholder and its source,
/// but not to a system message.
pub proof fn law_content_is_that_of_its_items(a: Seq<JsonView>, it: JsonView, images: bool, c: ContentView)
    requires
        content_of(JsonView::Array(a), images) == Ok::<ContentView, Seq<char>>(c),
    ensures
        content_of(JsonView::Array(Seq::empty()), images) == Ok::<ContentView, Seq<char>>(
            ContentView { text: Seq::empty(), images: Seq::empty() },
        ),
        it.at("text"@) matches Some(JsonView::Text(t)) ==> content_of(JsonView::Array(a.push(it)), images)
            == Ok::<ContentView, Seq<char>>(ContentView { text: c.text + t, images: c.images }),
        it.at("text"@) is None ==> (it.at("image_url"@) matches Some(u) ==> (u.at("url"@) matches Some(
            JsonView::Text(src),
        ) ==> {
            let r = content_of(JsonView::Array(a.push(it)), images);
            if images {
                r == Ok::<ContentView, Seq<char>>(
                    ContentView {
                        text: c.text + "<|vision_start|><|image_pad|><|vision_end|>"@,
                        images: c.images.push(src),
                    },
                )
            } else {
                r is Err
            }
        })),
        it.at("text"@) is None && it.at("image_url"@) is None && it.at("image"@) is None ==> content_of(
            JsonView::Array(a.push(it)),
            images,
        ) is Err,
{
    let more = a.push(it);
    lemma_items_of_more(a, it, a.len() as int, images);
    assert(more[more.len() - 1] == it);
}

proof fn lemma_items_of_more(a: Seq<JsonView>, it: JsonView, n: int, images: bool)
    requires
        n <= a.len(),
    ensures
        items_content(a.push(it), n, images) == items_content(a, n, images),
    decreases n,
{
    if n > 0 {
        lemma_items_of_more(a, it, n - 1, images);
        assert(a.push(it)[n - 1] == a[n - 1]);
    }
}

/// A content that is a string is that text; one that is missing is empty.
pub proof fn law_content_of_a_string(t: Seq<char>, images: bool)
    ensures
        content_of(JsonView::Text(t), images) == Ok::<ContentView, Seq<char>>(
            ContentView { text: t, images: Seq::empty() },
        ),
        content_of(JsonView::Null, images) == Ok::<ContentView, Seq<char>>(
            ContentView { text: Seq::empty(), images: Seq::empty() },
        ),
{
}

/// The calls of an answer stand behind its text, an empty line between, and behind each other, each on
/// a line of its own.
pub proof fn law_calls_stand_behind_the_answer(
    p: PromptView,
    calls: Seq<JsonView>,
    content: Seq<char>,
    call: JsonView,
)
    requires
        say_calls(p, calls.push(call), content, calls.len() as int + 1) is Ok,
    ensures
        ({
            let r = say_calls(p, calls, content, calls.len() as int);
            let q = say_calls(p, calls.push(call), content, calls.len() as int + 1);
            &&& r is Ok
            &&& calls.len() > 0 ==> q == say_call((r->Ok_0).say("\n"@), call)
            &&& calls.len() == 0 && content.len() > 0 ==> r->Ok_0 == p && q == say_call(
                p.say("\n\n"@),
                call,
            )
            &&& calls.len() == 0 && content.len() == 0 ==> r->Ok_0 == p && q == say_call(p, call)
        }),
{
    lemma_calls_of_more(p, calls, content, call, calls.len() as int);
    assert(calls.push(call)[calls.len() as int] == call);
}

proof fn lemma_calls_of_more(
    p: PromptView,
    calls: Seq<JsonView>,
    content: Seq<char>,
    call: JsonView,
    n: int,
)
    requires
        n <= calls.len(),
    ensures
        say_calls(p, calls.push(call), content, n) == say_calls(p, calls, content, n),
    decreases n,
{
    if n > 0 {
        lemma_calls_of_more(p, calls, content, call, n - 1);
        assert(calls.push(call)[n - 1] == calls[n - 1]);
    }
}

/// An assistant's message with calls adds them behind its text, before the end of its turn.
pub proof fn law_assistant_calls_are_added(
    msgs: Seq<MessageView>,
    m: MessageView,
    mode: Thinking,
    tools: Seq<JsonView>,
    c: ContentView,
) -> (at: (PromptView, PromptView))
    requires
        msgs.len() > 0,
        m.role == "assistant"@,
        content_of(m.content, false) == Ok::<ContentView, Seq<char>>(c),
        prompt_of(msgs.push(m), mode, tools) is Ok,
    ensures
        say_calls(at.0, m.calls, trim(c.text), m.calls.len() as int) == Ok::<PromptView, Seq<char>>(at.1),
        ({
            let p = prompt_of(msgs, mode, tools)->Ok_0;
            let q = prompt_of(msgs.push(m), mode, tools)->Ok_0;
            &&& at.0.text == p.text.subrange(0, p.text.len() - opening(mode).len())
                + "<|im_start|>assistant\n<think>\n"@ + trim(m.reasoning) + "\n</think>"@ + "\n\n"@
                + trim(c.text)
            &&& q.text == at.1.text + "<|im_end|>\n"@ + opening(mode)
        }),
{
    lemma_role_names();
    let r = lemma_two_prompts(msgs, m, mode, tools);
    let more = msgs.push(m);
    assert(more[msgs.len() as int] == m);
    let p = prompt_of(msgs, mode, tools)->Ok_0;
    let q = prompt_of(more, mode, tools)->Ok_0;
    assert(p.text =~= r.text + opening(mode));
    assert(p.text.subrange(0, p.text.len() - opening(mode).len()) =~= r.text);
    let a = r.with_images(c.images).mark(Role::Reasoning).say("<|im_start|>assistant\n<think>\n"@).say(
        trim(m.reasoning),
    ).say("\n</think>"@).mark(Role::Assistant).say("\n\n"@).say(trim(c.text));
    let d = say_calls(a, m.calls, trim(c.text), m.calls.len() as int)->Ok_0;
    assert(q.text =~= d.text + "<|im_end|>\n"@ + opening(mode));
    (a, d)
}

/// System messages are merged in their order, one per line, those without text left out.
pub proof fn law_system_messages_are_merged(msgs: Seq<MessageView>, m: MessageView, c: ContentView)
    requires
        merged_system(msgs, msgs.len() as int) is Ok,
        content_of(m.content, false) == Ok::<ContentView, Seq<char>>(c),
    ensures
        ({
            let t = trim(c.text);
            let s = merged_system(msgs, msgs.len() as int)->Ok_0;
            let r = merged_system(msgs.push(m), msgs.len() as int + 1);
            &&& t.len() == 0 ==> r == Ok::<Seq<char>, Seq<char>>(s)
            &&& t.len() > 0 && s.len() == 0 ==> r == Ok::<Seq<char>, Seq<char>>(t)
            &&& t.len() > 0 && s.len() > 0 ==> r == Ok::<Seq<char>, Seq<char>>(s + seq!['\n'] + t)
        }),
{
    lemma_merged_of_more(msgs, m, msgs.len() as int);
    let s = merged_system(msgs, msgs.len() as int)->Ok_0;
    assert(msgs.push(m)[msgs.len() as int] == m);
    assert(s.push('\n') =~= s + seq!['\n']);
}

} // verus!
