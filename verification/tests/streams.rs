//! Streams that are cut anywhere, calls that are written and read, and answers sent in pieces.
use tr_infer::chat::{render_prompt, Message, Thinking};
use tr_infer::completion::{Completion, Ending};
use tr_infer::emit::{Emitter, Piece, THINK_CLOSE};
use tr_infer::engine::{Event, Finish, Reason};
use tr_infer::json::{parse, to_compact, Json};
use tr_infer::tools::{parse_call, Out, ToolSpec, ToolStream};

fn json(s: &str) -> Json {
    parse(s.as_bytes()).unwrap()
}

fn feed(pieces: &[&str]) -> (String, Vec<String>) {
    let mut s = ToolStream::new(vec![]);
    let mut outs = Vec::new();
    for p in pieces {
        outs.append(&mut s.push(p));
    }
    outs.append(&mut s.finish());
    let mut text = String::new();
    let mut calls = Vec::new();
    for o in outs {
        match o {
            Out::Text(t) => text.push_str(&t),
            Out::Call(c) => {
                text.push('|');
                calls.push(format!("{}{}", c.name, to_compact(&Json::Object(c.arguments))));
            }
        }
    }
    (text, calls)
}

const WHOLE: &str = "Well <now>\n\n<tool_call>\n<function=f>\n<parameter=a>\n1\n</parameter>\n</function>\n</tool_call>\nfoo bar <tool_call>\n<function=g>\n</function>\n</tool_call>";

#[test]
fn a_cut_anywhere_keeps_calls_and_letters() {
    let (text, calls) = feed(&[WHOLE]);
    assert_eq!(text, "Well <now>|foo bar|");
    assert_eq!(calls, vec!["f{\"a\":1}", "g{}"]);
    let first_call = WHOLE.find("</tool_call>").unwrap() + "</tool_call>".len();
    for at in 0..=WHOLE.len() {
        let (t, c) = feed(&[&WHOLE[..at], &WHOLE[at..]]);
        assert_eq!(c, calls, "cut at {at}");
        let inked = |s: &str| s.chars().filter(|c| !c.is_whitespace()).collect::<String>();
        assert_eq!(inked(&t), inked(&text), "cut at {at}");
        if at < first_call {
            assert_eq!(t, text, "cut at {at}");
        }
    }
}

#[test]
fn a_cut_behind_a_call_can_drop_white_space() {
    let call = "<tool_call>\n<function=f>\n</function>\n</tool_call>";
    let all = format!("{call}foo bar{call}");
    assert_eq!(feed(&[&all]).0, "|foo bar|");
    assert_eq!(feed(&[&format!("{call}foo"), &format!(" bar{call}")]).0, "|foobar|");
}

#[test]
fn letter_by_letter_gives_what_the_whole_gives() {
    let letters: Vec<String> = WHOLE.chars().map(|c| c.to_string()).collect();
    let pieces: Vec<&str> = letters.iter().map(|s| s.as_str()).collect();
    assert_eq!(feed(&pieces).1, feed(&[WHOLE]).1);
    assert!(feed(&pieces).0.starts_with("Well <now>|"));
}

fn message(role: &str, content: &str) -> Message {
    Message { role: role.into(), content: Json::Text(content.into()), reasoning_content: None, tool_calls: None }
}

#[test]
fn a_written_call_is_read_back() {
    let tool = json(r#"{"type":"function","function":{"name":"put","parameters":{"type":"object","properties":{"path":{"type":"string"},"n":{"type":"integer"},"opts":{"type":"object"}}}}}"#);
    let spec = ToolSpec::from_value(&tool).unwrap();
    let arguments = r#"{"path":"a\n<b>\n","n":3,"opts":{"x":[1,null]}}"#;
    let mut a = message("assistant", "");
    a.tool_calls = Some(vec![Json::Object(vec![(
        "function".to_string(),
        Json::Object(vec![
            ("name".to_string(), Json::Text("put".to_string())),
            ("arguments".to_string(), Json::Text(arguments.to_string())),
        ]),
    )])]);
    let (p, _) = render_prompt(&vec![message("user", "go"), a], Thinking::Off, &vec![]).unwrap();
    let from = p.find("<tool_call>").unwrap() + "<tool_call>".len();
    let block = &p[from..p.find("</tool_call>").unwrap()];
    let c = parse_call(block, &vec![spec]).unwrap();
    assert_eq!(c.name, "put");
    assert_eq!(to_compact(&Json::Object(c.arguments)), arguments);
}

fn member<'a>(v: &'a Json, key: &str) -> &'a Json {
    match v {
        Json::Object(m) => &m.iter().find(|x| x.0 == key).unwrap().1,
        _ => panic!("not an object"),
    }
}

fn item(v: &Json) -> &Json {
    match v {
        Json::Array(a) => &a[0],
        _ => panic!("not an array"),
    }
}

fn gather(chunks: &[String], reasoning: &mut String, content: &mut String, calls: &mut Vec<String>, end: &mut String) {
    for c in chunks {
        let v = json(c.strip_prefix("data: ").unwrap().trim_end());
        let choice = item(member(&v, "choices"));
        if let Json::Text(r) = member(choice, "finish_reason") {
            *end = r.clone();
        }
        if let Json::Object(m) = member(choice, "delta") {
            for (k, x) in m {
                match (k.as_str(), x) {
                    ("reasoning_content", Json::Text(t)) => reasoning.push_str(t),
                    ("content", Json::Text(t)) => content.push_str(t),
                    ("tool_calls", x) => calls.push(to_compact(member(item(x), "function"))),
                    _ => {}
                }
            }
        }
    }
}

fn events() -> Vec<Event<f32>> {
    let mut v = vec![Event::Reasoning("so ".to_string()), Event::Reasoning("be it".to_string())];
    for at in (0..WHOLE.len()).step_by(7) {
        v.push(Event::Content(WHOLE[at..WHOLE.len().min(at + 7)].to_string()));
    }
    v.push(Event::Done(Finish {
        reason: Reason::Stop,
        completion_tokens: 9,
        reasoning_tokens: 2,
        gen_s: 0.5,
        drafted: 0,
        accepted: 0,
        experts: 0.0,
    }));
    v
}

#[test]
fn a_streamed_answer_gathers_to_the_answer() {
    let mut streamed = Completion::new("a0001", 5, "m", true, false, 3, &vec![], 1);
    let (mut reasoning, mut content, mut calls, mut end) = (String::new(), String::new(), Vec::new(), String::new());
    for e in events() {
        gather(&streamed.event(0, e).unwrap(), &mut reasoning, &mut content, &mut calls, &mut end);
    }
    let mut whole = Completion::new("a0001", 5, "m", false, false, 3, &vec![], 1);
    for e in events() {
        assert!(whole.event(0, e).unwrap().is_empty());
    }
    let body = match whole.finish() {
        Ending::Body(200, b) => json(&b),
        _ => panic!("an answer that is not streamed has a body"),
    };
    let choice = item(member(&body, "choices"));
    let m = member(choice, "message");
    assert!(matches!(member(m, "reasoning_content"), Json::Text(t) if *t == reasoning && t == "so be it"));
    assert!(matches!(member(m, "content"), Json::Text(t) if *t == content));
    assert!(matches!(member(choice, "finish_reason"), Json::Text(t) if *t == end && t == "tool_calls"));
    assert_eq!(calls.len(), 2);
    assert_eq!(calls[0], to_compact(member(item(member(m, "tool_calls")), "function")));
}

#[test]
fn pieces_of_an_output_make_its_text() {
    let mut e = Emitter::new(&vec!["END".to_string()], true);
    let (mut thought, mut answer) = (String::new(), String::new());
    let mut take = |p: Option<Piece>| match p {
        Some(Piece::Reasoning(t)) => thought.push_str(&t),
        Some(Piece::Content(t)) => answer.push_str(&t),
        None => {}
    };
    for (id, text) in [(1, "so "), (2, "it "), (3, "goes \n"), (THINK_CLOSE, ""), (4, "\n\n"), (5, "An"), (6, " E"), (7, "N"), (8, "d"), (9, " E")] {
        let r = e.push(id, text);
        assert!(!r.stopped);
        take(r.piece);
    }
    take(e.flush(""));
    assert_eq!(thought, "so it goes");
    assert_eq!(answer, "An ENd E");
}

#[test]
fn a_cut_behind_a_call_can_keep_white_space() {
    let call = "<tool_call>\n<function=f>\n</function>\n</tool_call>";
    assert_eq!(feed(&[&format!("{call}\nfoo{call}")]).0, "|foo|");
    assert_eq!(feed(&[&format!("{call}\nfoo"), call]).0, "|\nfoo|");
}
