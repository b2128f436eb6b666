//! The server: prompts, tools, output, images, staging and requests.
use base64::Engine as _;
use tr_infer::api::{authorized, choose_sampling, error_text, health_body, models_body, read_request, route, stop_strings, token_budget, Route, SamplingDefaults, SchedulerCounts};
use tr_infer::chat::{render_prompt, render_prompt_images, render_prompt_spans, resolve_thinking, ChatRequest, Message, ReasoningParam, Stop, StreamOptions, TemplateKwargs, Thinking, IMAGE_PLACEHOLDER};
use tr_infer::completion::{choice_finish, request_tail, Completion, Ending, DONE};
use tr_infer::emit::{stop_holdback, Emitter, Piece, Section, THINK_CLOSE};
use tr_infer::engine::{accept, continuous_pages, final_spans, prefill_end, segments, snapshot_role, Event, Finish, KeptImages, Reason, Sampling, Stepped};
use tr_infer::http::{chunk_frame, event_stream_head, response_head, HttpError, Parser, Phase};
use tr_infer::images::{choose_bytes, decode, expand_pads, fetch, Fetched, ImagePlace, Prepared};
use tr_infer::json::{parse, to_compact, Json};
use tr_infer::role::{Role, Span};
use tr_infer::spans::{expand_spans, token_spans};
use tr_infer::staging::Staging;
use tr_infer::tools::{parse_call, py_json, Out, ToolSpec, ToolStream};

fn json(s: &str) -> Json {
    parse(s.as_bytes()).unwrap()
}

fn msg(role: &str, content: &str) -> Message {
    Message { role: role.into(), content: Json::Text(content.into()), reasoning_content: None, tool_calls: None }
}

fn request() -> ChatRequest<f32> {
    ChatRequest {
        model: None,
        messages: vec![],
        stream: false,
        stream_options: None,
        max_tokens: None,
        max_completion_tokens: None,
        temperature: None,
        top_p: None,
        top_k: None,
        seed: None,
        stop: None,
        n: None,
        reasoning_effort: None,
        reasoning_temperature: None,
        reasoning_top_p: None,
        reasoning_top_k: None,
        enable_thinking: None,
        chat_template_kwargs: None,
        reasoning: None,
        tools: None,
        tool_choice: None,
    }
}

#[test]
fn image_parts() {
    let c = json(r#"[{"type": "text", "text": "What is this? "}, {"type": "image_url", "image_url": {"url": "data:image/png;base64,AAAA"}}, {"type": "text", "text": " and this "}, {"type": "image", "image": "http://x/y.jpg"}]"#);
    let m = Message { role: "user".into(), content: c, reasoning_content: None, tool_calls: None };
    let (p, _, imgs) = render_prompt_images(&vec![m], Thinking::Off, &vec![]).unwrap();
    assert!(p.contains(&format!("What is this? {IMAGE_PLACEHOLDER} and this {IMAGE_PLACEHOLDER}<|im_end|>")));
    assert_eq!(imgs, vec!["data:image/png;base64,AAAA".to_string(), "http://x/y.jpg".to_string()]);
    let sys = Message { role: "system".into(), content: json(r#"[{"type": "image_url", "image_url": {"url": "data:,x"}}]"#), reasoning_content: None, tool_calls: None };
    assert!(render_prompt_images(&vec![sys, msg("user", "hi")], Thinking::Off, &vec![]).is_err());
}

#[test]
fn template_matches_jinja() {
    let (p, open) = render_prompt(&vec![msg("user", "Hi ")], Thinking::Off, &vec![]).unwrap();
    assert_eq!(p, "<|im_start|>user\nHi<|im_end|>\n<|im_start|>assistant\n<think>\n\n</think>\n\n");
    assert!(!open);
    let (p, open) = render_prompt(&vec![msg("system", "Be brief."), msg("user", "Hi")], Thinking::Medium, &vec![]).unwrap();
    assert_eq!(p, "<|im_start|>system\nBe brief.<|im_end|>\n<|im_start|>user\nHi<|im_end|>\n<|im_start|>assistant\n<think>\n");
    assert!(open);
    let (p, _) = render_prompt(&vec![msg("user", "Hi")], Thinking::Low, &vec![]).unwrap();
    assert!(p.starts_with("<|im_start|>system\nReasoning effort is set to low."));
    let mut a = msg("assistant", "Hello!\n");
    a.reasoning_content = Some("thinking\n".into());
    let (p, _) = render_prompt(&vec![msg("developer", "A"), msg("system", "B"), msg("user", "Hi"), a, msg("user", "Again")], Thinking::XHigh, &vec![]).unwrap();
    assert_eq!(
        p,
        "<|im_start|>system\nReasoning effort is set to xhigh. Please think carefully through the task, validate key assumptions, consider plausible alternatives, and prioritize correctness, consistency, and clarity in the final answer.\n\nA\nB<|im_end|>\n<|im_start|>user\nHi<|im_end|>\n<|im_start|>assistant\n<think>\nthinking\n</think>\n\nHello!<|im_end|>\n<|im_start|>user\nAgain<|im_end|>\n<|im_start|>assistant\n<think>\n"
    );
    assert!(render_prompt(&vec![msg("user", "x"), msg("system", "late")], Thinking::Off, &vec![]).is_err());
}

#[test]
fn tool_calls_and_results_stand_in_the_prompt() {
    let tool = json(r#"{"type": "function", "function": {"name": "get_weather", "description": "Weather", "parameters": {"type": "object", "properties": {"city": {"type": "string"}, "days": {"type": "integer"}}, "required": ["city"]}}}"#);
    let mut a = msg("assistant", "");
    a.tool_calls = Some(vec![json(r#"{"id": "call_1", "type": "function", "function": {"name": "get_weather", "arguments": "{\"city\": \"Paris\", \"days\": 2}"}}"#)]);
    let (p, _) = render_prompt(&vec![msg("system", "Sys."), msg("user", "Weather in Paris?"), a, msg("tool", "sunny"), msg("tool", "windy"), msg("user", "thanks")], Thinking::Off, &vec![tool]).unwrap();
    assert!(p.contains(r#"{"type": "function", "function": {"name": "get_weather", "description": "Weather", "parameters": {"type": "object", "properties": {"city": {"type": "string"}, "days": {"type": "integer"}}, "required": ["city"]}}}"#));
    assert!(p.contains("<tool_call>\n<function=get_weather>\n<parameter=city>\nParis\n</parameter>\n<parameter=days>\n2\n</parameter>\n</function>\n</tool_call>"));
    assert!(p.contains("<|im_start|>user\n<tool_response>\nsunny\n</tool_response>\n<tool_response>\nwindy\n</tool_response><|im_end|>\n"));
}

#[test]
fn spans_follow_the_turns() {
    // one segment per turn, in order, covering the whole text
    let mut a = msg("assistant", "Hello!");
    a.reasoning_content = Some("thinking".into());
    let r = render_prompt_spans(&vec![msg("system", "Sys."), msg("user", "Hi"), a, msg("tool", "sunny"), msg("tool", "windy"), msg("user", "Again")], Thinking::XHigh, &vec![]).unwrap();
    let roles: Vec<Role> = r.segs.iter().map(|s| s.1).collect();
    assert_eq!(roles, vec![Role::System, Role::User, Role::Reasoning, Role::Assistant, Role::Tool, Role::User, Role::Reasoning]);
    assert_eq!(r.segs[0].0, 0);
    let text_at = |i: usize| &r.text[r.segs[i].0..r.segs.get(i + 1).map(|s| s.0).unwrap_or(r.text.len())];
    assert!(text_at(1).starts_with("<|im_start|>user\nHi<|im_end|>\n"));
    assert_eq!(text_at(2), "<|im_start|>assistant\n<think>\nthinking\n</think>");
    assert_eq!(text_at(3), "\n\nHello!<|im_end|>\n");
    assert_eq!(text_at(4), "<|im_start|>user\n<tool_response>\nsunny\n</tool_response>\n<tool_response>\nwindy\n</tool_response><|im_end|>\n");
    assert_eq!(text_at(6), "<|im_start|>assistant\n<think>\n");
    // thinking off: the tail is the answer's; no system message and no instructions: no System
    let r = render_prompt_spans(&vec![msg("user", "Hi")], Thinking::Off, &vec![]).unwrap();
    assert_eq!(r.segs.iter().map(|s| s.1).collect::<Vec<_>>(), vec![Role::User, Role::Assistant]);
    assert_eq!(r.segs[0].0, 0);
    // token spans from byte offsets: tokens take the segment of their first byte
    let segs = [(0, Role::System), (10, Role::User), (20, Role::Reasoning)];
    let offsets = [(0, 3), (3, 10), (10, 12), (12, 20), (20, 21)];
    let sp = token_spans(&segs, &offsets);
    assert_eq!(sp, vec![Span::new(0, 2, Role::System), Span::new(2, 4, Role::User), Span::new(4, 5, Role::Reasoning)]);
    // a token straddling a segment start belongs to the segment it starts in
    let sp = token_spans(&[(0, Role::System), (5, Role::User)], &[(0, 4), (4, 8), (8, 9)]);
    assert_eq!(sp, vec![Span::new(0, 2, Role::System), Span::new(2, 3, Role::User)]);
    // image expansion shifts the boundaries after each pad
    let spans = [Span::new(0, 2, Role::System), Span::new(2, 5, Role::User), Span::new(5, 6, Role::Assistant)];
    let ids = [1, 2, 7, 3, 7, 4];
    let e = expand_spans(&spans, &ids, 7, &[4, 3]);
    assert_eq!(e, vec![Span::new(0, 2, Role::System), Span::new(2, 10, Role::User), Span::new(10, 11, Role::Assistant)]);
}

#[test]
fn segment_starts_count_bytes() {
    let r = render_prompt_spans(&vec![msg("user", "é€"), msg("assistant", "ok"), msg("user", "x")], Thinking::Off, &vec![]).unwrap();
    assert_eq!(&r.text[r.segs[0].0..r.segs[1].0], "<|im_start|>user\né€<|im_end|>\n");
    // none is empty
    assert!(r.segs.windows(2).all(|w| w[0].0 < w[1].0));
    assert!(r.segs.last().unwrap().0 < r.text.len());
}

#[test]
fn thinking_resolution() {
    assert_eq!(resolve_thinking(&request(), Thinking::XHigh).unwrap(), Thinking::XHigh);
    let mut r = request();
    r.reasoning_effort = Some("none".into());
    assert_eq!(resolve_thinking(&r, Thinking::XHigh).unwrap(), Thinking::Off);
    let mut r = request();
    r.chat_template_kwargs = Some(TemplateKwargs { enable_thinking: Some(false), reasoning_effort: None });
    r.reasoning_effort = Some("low".into());
    assert_eq!(resolve_thinking(&r, Thinking::XHigh).unwrap(), Thinking::Off);
    let mut r = request();
    r.enable_thinking = Some(true);
    assert_eq!(resolve_thinking(&r, Thinking::Off).unwrap(), Thinking::XHigh);
    let mut r = request();
    r.reasoning = Some(ReasoningParam { enabled: None, effort: Some("medium".into()), temperature: None, top_p: None, top_k: None });
    assert_eq!(resolve_thinking(&r, Thinking::Off).unwrap(), Thinking::Medium);
    let mut r = request();
    r.reasoning_effort = Some("ultra".into());
    assert!(resolve_thinking(&r, Thinking::Off).is_err());
}

#[test]
fn python_json() {
    let v = json(r#"{"type":"function","function":{"name":"get_weather","parameters":{"type":"object","properties":{"city":{"type":"string"},"days":{"type":"integer"}},"required":["city"]}}}"#);
    let mut s = String::new();
    py_json(&v, &mut s);
    assert_eq!(s, r#"{"type": "function", "function": {"name": "get_weather", "parameters": {"type": "object", "properties": {"city": {"type": "string"}, "days": {"type": "integer"}}, "required": ["city"]}}}"#);
    let mut s = String::new();
    py_json(&json("[\"a\\\"b\\n\", 1.5, true, null, \"é<>\"]"), &mut s);
    assert_eq!(s, "[\"a\\\"b\\n\", 1.5, true, null, \"é<>\"]");
}

#[test]
fn json_texts_agree_with_the_parser() {
    for t in [r#"{"a":[1,-2.5e3,true,false,null,"x\"\\\u0001\té"],"b":{}}"#, "[]", "\"\\u007f\\n\"", "18446744073709551615"] {
        let v: serde_json::Value = serde_json::from_str(t).unwrap();
        assert_eq!(to_compact(&json(t)), v.to_string());
    }
    assert!(parse(b"{").is_none());
    assert_eq!(json("{\"a\":7}").get("a").and_then(|v| v.as_u64()), Some(7));
}

/// The arguments of a call as JSON text.
fn arguments(c: tr_infer::tools::ToolCall) -> String {
    to_compact(&Json::Object(c.arguments))
}

#[test]
fn parse_and_type() {
    let spec = ToolSpec::from_value(&json(r#"{"type":"function","function":{"name":"get_weather","parameters":{"type":"object","properties":{"city":{"type":"string"},"days":{"type":"integer"},"units":{"type":["string","null"]},"opts":{"type":"object"}}}}}"#)).unwrap();
    let specs = vec![spec];
    let c = parse_call("\n<function=get_weather>\n<parameter=city>\nParis\n</parameter>\n<parameter=days>\n3\n</parameter>\n<parameter=opts>\n{\"a\": [1, 2]}\n</parameter>\n</function>\n", &specs).unwrap();
    assert_eq!(c.name, "get_weather");
    assert_eq!(arguments(c), r#"{"city":"Paris","days":3,"opts":{"a":[1,2]}}"#);
    // string-typed value that looks like JSON stays a string; untyped decides by the value
    let c = parse_call("<function=get_weather>\n<parameter=city>\n123\n</parameter>\n<parameter=extra>\n[1]\n</parameter>\n<parameter=note>\nhi\n</parameter>\n</function>", &specs).unwrap();
    assert_eq!(arguments(c), r#"{"city":"123","extra":[1],"note":"hi"}"#);
    // no parameters, multi-line value
    let c = parse_call("<function=f>\n<parameter=text>\nline1\nline2\n</parameter>\n</function>", &vec![]).unwrap();
    assert_eq!(arguments(c), r#"{"text":"line1\nline2"}"#);
    assert!(parse_call("garbage", &vec![]).is_none());
}

fn collect(outs: Vec<Out>, text: &mut String, calls: &mut Vec<tr_infer::tools::ToolCall>) {
    for o in outs {
        match o {
            Out::Text(t) => text.push_str(&t),
            Out::Call(c) => calls.push(c),
        }
    }
}

#[test]
fn stream_split() {
    let mut ts = ToolStream::new(vec![]);
    let mut text = String::new();
    let mut calls = Vec::new();
    // feed in awkward pieces
    for piece in ["Let me ", "check.\n\n<tool", "_call>\n<function=a>\n<parameter=x>\n1\n</parameter>\n</function>\n</tool_call", ">\n<tool_call>\n<function=b>\n</function>\n</tool_call>"] {
        collect(ts.push(piece), &mut text, &mut calls);
    }
    collect(ts.finish(), &mut text, &mut calls);
    assert_eq!(text, "Let me check.");
    assert_eq!(calls.len(), 2);
    assert_eq!(calls[0].name, "a");
    assert_eq!(calls[1].name, "b");
    assert!(calls[1].arguments.is_empty());
    assert_eq!(arguments(calls.remove(0)), r#"{"x":1}"#);
    // plain text with a lone '<' is passed through, held only while it could start a tag
    let mut ts = ToolStream::new(vec![]);
    let mut text = String::new();
    for piece in ["a < b <to", "ol x"] {
        collect(ts.push(piece), &mut text, &mut calls);
    }
    collect(ts.finish(), &mut text, &mut calls);
    assert_eq!(text, "a < b <tool x");
}

#[test]
fn holdback() {
    let stops = vec!["</s>".to_string(), "END".to_string()];
    assert_eq!(stop_holdback("hello <", &stops), 1);
    assert_eq!(stop_holdback("hello </s", &stops), 3);
    assert_eq!(stop_holdback("hello EN", &stops), 2);
    assert_eq!(stop_holdback("hello", &stops), 0);
    assert_eq!(stop_holdback("hello", &[]), 0);
}

#[test]
fn a_character_in_two_tokens_is_sent_when_it_is_whole() {
    let mut s = Section::new();
    assert_eq!(s.window(5), vec![5]);
    s.push(5, "a\u{FFFD}");
    assert_eq!(s.take(0), Some("a".to_string()));
    assert_eq!(s.window(6), vec![5, 6]);
    s.push(6, "aé");
    assert_eq!(s.take(0), Some("é".to_string()));
    assert_eq!(s.take(0), None);
    assert_eq!(s.text(), "aé");
}

#[test]
fn emitter_splits_thought_and_answer_and_stops() {
    let mut e = Emitter::new(&vec!["END".to_string()], true);
    let r = e.push(1, "hm");
    assert!(!r.stopped && matches!(r.piece, Some(Piece::Reasoning(ref t)) if t == "hm"));
    let r = e.push(THINK_CLOSE, "");
    assert!(!r.stopped && r.answering);
    let r = e.push(2, "ok EN");
    assert!(matches!(r.piece, Some(Piece::Content(ref t)) if t == "ok "));
    let r = e.push(3, "D more");
    assert!(r.stopped && r.piece.is_none());
    assert_eq!(e.generated(), 4);
    assert_eq!(e.reasoned(), 2);
}

#[test]
fn emitter_gives_back_what_it_held() {
    let mut e = Emitter::new(&vec!["END".to_string()], false);
    let r = e.push(2, "ok E");
    assert!(matches!(r.piece, Some(Piece::Content(ref t)) if t == "ok "));
    let held = e.held();
    assert!(held.is_empty());
    assert!(matches!(e.flush(""), Some(Piece::Content(ref t)) if t == "E"));
}

#[test]
fn reservation_accounts_for_shared_prefix_and_private_tails() {
    assert_eq!(continuous_pages(128, 64, 3), Some(5));
    assert_eq!(continuous_pages(129, 64, 3), Some(8));
    assert_eq!(continuous_pages(63, 1, 3), Some(3));
    assert_eq!(continuous_pages(64, 1, 3), Some(4));
    assert_eq!(continuous_pages(1, usize::MAX, 1), None);
    assert_eq!(continuous_pages(1, 64, usize::MAX), None);
}

#[test]
fn turns_end_by_length_stop_token_or_cancellation() {
    let mut e = Emitter::new(&vec![], false);
    let t = accept(&mut e, 2, &[9], false, 1, "a");
    assert!(t.end.is_none());
    let t = accept(&mut e, 2, &[9], false, 2, "b");
    assert_eq!(t.end, Some(Reason::Length));
    let mut e = Emitter::new(&vec![], false);
    let t = accept(&mut e, 5, &[9], false, 9, "");
    assert_eq!(t.end, Some(Reason::Stop));
    assert_eq!(Reason::Stop.name(), "stop");
    assert_eq!(Reason::Length.name(), "length");
}

#[test]
fn prompts_are_reused_as_far_as_they_go_on() {
    let mut s = Stepped::new();
    assert_eq!(s.begin(&[1, 2, 3], &[]), 0);
    s.extend(&[1, 2, 3], 0, 3);
    s.settle(&[], true);
    assert_eq!(s.ids(), &vec![1, 2, 3]);
    assert_eq!(s.begin(&[1, 2, 3, 4], &[]), 3);
    assert_eq!(s.begin(&[1, 9], &[]), 0);
    assert!(s.is_empty());
}

#[test]
fn batches_stop_where_snapshots_are_due() {
    let points = [(5, Role::System), (12, Role::User)];
    assert_eq!(prefill_end(0, 20, 8, &points), 5);
    assert_eq!(prefill_end(5, 20, 4, &points), 9);
    assert_eq!(prefill_end(9, 20, 8, &points), 12);
    assert_eq!(prefill_end(12, 20, 100, &points), 20);
    assert_eq!(snapshot_role(&points, 12), Some(Role::User));
    assert_eq!(snapshot_role(&points, 11), None);
}

#[test]
fn image_rows_are_cut_with_the_batch() {
    // an image of 6 rows from row 3 on, a batch of rows 5..8
    let s = segments(&[(3, 0xabc, 6)], 5, 8);
    assert_eq!(s.len(), 1);
    assert_eq!((s[0].image, s[0].row, s[0].n, s[0].skip), (0, 0, 3, 2));
    assert!(segments(&[(3, 0xabc, 6)], 9, 12).is_empty());
}

#[test]
fn spans_of_a_finished_turn() {
    let prompt = [Span::new(0, 4, Role::System), Span::new(4, 10, Role::Reasoning)];
    let s = final_spans(&prompt, 16, 10, true, 2);
    assert_eq!(s.last().map(|x| (x.end, x.role)), Some((16, Role::Assistant)));
    assert!(s.iter().any(|x| x.role == Role::Reasoning));
    assert_eq!(s.windows(2).filter(|w| w[0].end != w[1].start).count(), 0);
}

#[test]
fn kept_images_are_dropped_oldest_first() {
    let mut k = KeptImages::new();
    for h in 0..16u64 {
        assert_eq!(k.keep(h), None);
    }
    assert!(k.has(0));
    assert_eq!(k.keep(16), Some(0));
    assert!(!k.has(0) && k.has(16));
}

#[test]
fn data_uri_and_expand() {
    // 2x2 PNG via the image crate's encoder
    let mut png = Vec::new();
    let img = image::RgbImage::from_fn(2, 2, |x, y| image::Rgb([x as u8 * 100, y as u8 * 100, 7]));
    image::DynamicImage::ImageRgb8(img).write_to(&mut std::io::Cursor::new(&mut png), image::ImageFormat::Png).unwrap();
    let uri = format!("data:image/png;base64,{}", base64::engine::general_purpose::STANDARD.encode(&png));
    let bytes = match fetch(&uri).unwrap() {
        Fetched::Bytes(b) => b,
        Fetched::Remote => panic!("the bytes are in the source"),
    };
    let (rgb, w, h) = decode(&bytes).unwrap();
    assert_eq!((w, h), (2, 2));
    assert_eq!(&rgb[..3], &[0, 0, 7]);
    assert_eq!(&rgb[3..6], &[100, 0, 7]);
    assert!(fetch("ftp://x").is_err());
    let a = Prepared { patches: (), hash: 1, nx: 2, ny: 3 };
    let (ids, places) = expand_pads(&[1, 9, 2, 9], 9, &[Prepared { patches: (), hash: 1, nx: 1, ny: 2 }, a]).unwrap();
    assert_eq!(ids, vec![1, 9, 9, 2, 9, 9, 9, 9, 9, 9]);
    assert_eq!(places, vec![ImagePlace { row: 1, nx: 1, ny: 2 }, ImagePlace { row: 4, nx: 2, ny: 3 }]);
    let none: [Prepared<()>; 0] = [];
    assert!(expand_pads(&[1, 9], 9, &none).is_err());
}

#[test]
fn data_uris_without_padding_are_read_too() {
    let bare = base64::engine::general_purpose::STANDARD_NO_PAD.encode(b"ab");
    assert_eq!(bare, "YWI");
    assert!(matches!(fetch("data:x;base64,YWI"), Ok(Fetched::Bytes(ref b)) if b == b"ab"));
    assert!(matches!(fetch("data:x;base64,YW\nI="), Ok(Fetched::Bytes(ref b)) if b == b"ab"));
    assert!(matches!(fetch("https://x/y.png"), Ok(Fetched::Remote)));
    assert!(fetch("data:x;base64,!!").is_err());
    assert_eq!(choose_bytes(Ok(vec![1]), Err("no".into())), Ok(vec![1]));
    assert!(decode(b"not an image").is_err());
}

#[test]
fn nonblocking_staging_does_not_wait_for_budget_or_mutex() {
    let staging = std::sync::Mutex::new(Staging::new(4096));
    let take = |len: usize| staging.try_lock().ok().and_then(|mut s| s.take(len));
    let b = take(4096).unwrap();
    assert!(take(1).is_none());
    staging.lock().unwrap().give(b);
    let guard = staging.lock().unwrap();
    assert!(take(1).is_none());
    drop(guard);
    assert!(take(1).is_some());
}

#[test]
fn staging_lends_the_smallest_buffer_that_fits() {
    let mut s = Staging::new(1 << 20);
    s.warm(100_000, 5_000);
    let b = s.take(4_000).unwrap();
    assert_eq!(b.len(), 4_000);
    assert!(b.capacity() < 100_000);
    let c = s.take(90_000).unwrap();
    assert_eq!(c.len(), 90_000);
    s.give(b);
    s.give(c);
}

fn read(lines: &[&str], body: &[u8]) -> Result<Parser, HttpError> {
    let mut p = Parser::new();
    for l in lines {
        p.line(l)?;
    }
    if let Phase::Sized(n) = p.phase() {
        assert!(n <= body.len());
        p.bytes(&body[..n]);
    }
    Ok(p)
}

#[test]
fn requests_are_read_line_by_line() {
    let p = read(&["POST /v1/chat/completions HTTP/1.1\r\n", "Content-Length: 3\r\n", "Authorization: Bearer k\r\n", "\r\n"], b"abc").unwrap();
    assert!(matches!(p.phase(), Phase::Done));
    let q = p.request();
    assert_eq!((q.method.as_str(), q.path.as_str()), ("POST", "/v1/chat/completions"));
    assert_eq!(q.header("authorization"), Some("Bearer k"));
    assert_eq!(q.body, b"abc");
    assert!(q.keep_alive);
    assert!(read(&["nonsense\r\n"], b"").is_err());
}

#[test]
fn responses_are_framed() {
    let h = response_head(200, "application/json", 12, true);
    assert!(h.starts_with("HTTP/1.1 200 OK\r\n"));
    assert!(h.contains("Content-Length: 12\r\n"));
    assert!(h.ends_with("\r\n\r\n"));
    assert!(event_stream_head(false).contains("text/event-stream"));
    assert_eq!(chunk_frame(&[b'x'; 26]), [b"1a\r\n".to_vec(), vec![b'x'; 26], b"\r\n".to_vec()].concat());
}

#[test]
fn the_api_is_guarded_and_routed() {
    assert!(authorized(Some("Bearer  k "), Some("k")));
    assert!(!authorized(Some("k"), Some("k")));
    assert!(!authorized(None, Some("k")));
    assert!(authorized(None, None));
    assert!(matches!(route("OPTIONS", "/x", None, Some("k"), "m"), Route::Preflight));
    assert!(matches!(route("GET", "/health/", None, Some("k"), "m"), Route::Health));
    assert!(matches!(route("GET", "/v1/models", None, Some("k"), "m"), Route::Denied));
    assert!(matches!(route("GET", "/v1/models", None, None, "m"), Route::Models));
    assert!(matches!(route("GET", "/v1/models/m", None, None, "m"), Route::Model));
    assert!(matches!(route("GET", "/v1/models/q", None, None, "m"), Route::NoModel(ref id) if id == "q"));
    assert!(matches!(route("POST", "/v1/chat/completions", None, None, "m"), Route::Chat));
    assert!(matches!(route("PUT", "/v1/models", None, None, "m"), Route::NoRoute));
    assert_eq!(error_text(404, "no"), r#"{"error":{"message":"no","type":"not_found_error","param":null,"code":null}}"#);
    assert!(error_text(401, "x").contains("authentication_error") && error_text(400, "x").contains("invalid_request_error") && error_text(503, "x").contains("server_error"));
    let v: serde_json::Value = serde_json::from_str(&models_body("m", 7)).unwrap();
    assert_eq!(v["data"][0]["id"], serde_json::Value::from("m"));
    let h: serde_json::Value = serde_json::from_str(&health_body("m", 5, SchedulerCounts { queued: 1, active: 2, idle_pages: 3, page_capacity: 4, free_pages: 5, iterations: 6, decode_rows: 7, prefill_rows: 8, max_batch_sequences: 9 })).unwrap();
    assert_eq!(h["uptime_s"], serde_json::Value::from(5));
    assert_eq!(h["scheduler"]["prefill_rows"], serde_json::Value::from(8));
}

#[test]
fn requests_are_checked_before_they_are_queued() {
    let mut r = request();
    r.messages = vec![msg("user", "Hi")];
    let a = read_request(&r, Thinking::Off, 1).unwrap();
    assert!(!a.rendered.thinking_open);
    r.n = Some(2);
    assert_eq!(read_request(&r, Thinking::Off, 1).err().unwrap(), "n must be 1..1 (enable continuous batching for multiple choices)");
    r.n = None;
    r.tool_choice = Some(json("\"required\""));
    assert!(read_request(&r, Thinking::Off, 1).is_err());
    r.tool_choice = None;
    r.tools = Some(vec![json("{}")]);
    assert_eq!(read_request(&r, Thinking::Off, 1).err().unwrap(), "each tool needs function.name");
    let mut r = request();
    r.max_tokens = Some(50);
    assert_eq!(token_budget(&r, 10, 100, 0), Ok(50));
    r.max_completion_tokens = Some(0);
    assert_eq!(token_budget(&r, 10, 100, 0), Ok(1));
    r.max_completion_tokens = Some(500);
    assert_eq!(token_budget(&r, 10, 100, 0), Ok(90));
    assert_eq!(token_budget(&r, 100, 100, 0).unwrap_err(), "prompt is 100 tokens, the context window is 100 tokens");
    assert_eq!(token_budget(&r, 10, 100, 1).unwrap_err(), "request exceeds the KV pool capacity; reduce n, prompt length, or max_tokens");
    assert_eq!(stop_strings(&Some(Stop::Many(vec!["a".into(), "".into()]))), Ok(vec!["a".to_string()]));
    assert_eq!(stop_strings(&Some(Stop::One("x".into()))), Ok(vec!["x".to_string()]));
    assert!(stop_strings(&Some(Stop::Many(vec!["a".into(); 17]))).is_err());
}

#[test]
fn sampling_falls_back_step_by_step() {
    let d = SamplingDefaults { temp: 0.6f32, top_p: 0.95, top_k: 20, think_temp: Some(1.0), think_top_p: None, think_top_k: None };
    let mut r = request();
    let (s, t) = choose_sampling(&r, d, Thinking::XHigh);
    assert_eq!((s.temp, s.top_p, s.top_k), (0.6, 0.95, 20));
    let t: Sampling<f32> = t.unwrap();
    assert_eq!((t.temp, t.top_p, t.top_k), (1.0, 0.95, 20));
    r.temperature = Some(0.2);
    r.reasoning_temperature = Some(0.3);
    let (s, t) = choose_sampling(&r, d, Thinking::XHigh);
    assert_eq!(s.temp, 0.2);
    assert_eq!(t.unwrap().temp, 0.3);
}

fn finish(reason: Reason) -> Finish<f32> {
    Finish { reason, completion_tokens: 2, reasoning_tokens: 0, gen_s: 0.5, drafted: 0, accepted: 0, experts: 0.0 }
}

#[test]
fn completions_stream_and_collect() {
    let tail = request_tail(0x1234, 7);
    let mut c = Completion::new(&tail, 9, "m", true, true, 3, &vec![], 1);
    let first = c.event(0, Event::<f32>::Content("hi".into())).unwrap();
    assert!(first.iter().any(|x| x.contains("\"content\":\"hi\"")));
    c.event(0, Event::Done(finish(Reason::Stop))).unwrap();
    assert!(c.complete());
    match c.finish() {
        Ending::Chunks(v) => {
            assert_eq!(v.last().map(|s| s.as_str()), Some(DONE));
            assert!(v.iter().any(|x| x.contains("\"usage\"")));
        }
        Ending::Body(_, _) => panic!("a stream ends with chunks"),
    }
    let mut c = Completion::new(&tail, 9, "m", false, false, 3, &vec![], 1);
    assert!(c.event(0, Event::<f32>::Reasoning("why".into())).unwrap().is_empty());
    c.event(0, Event::<f32>::Content("hi".into())).unwrap();
    c.event(0, Event::Done(finish(Reason::Length))).unwrap();
    match c.finish() {
        Ending::Body(status, b) => {
            assert_eq!(status, 200);
            let v: serde_json::Value = serde_json::from_str(&b).unwrap();
            assert_eq!(v["choices"][0]["message"]["content"], serde_json::Value::from("hi"));
            assert_eq!(v["choices"][0]["message"]["reasoning_content"], serde_json::Value::from("why"));
            assert_eq!(v["choices"][0]["finish_reason"], serde_json::Value::from("length"));
        }
        Ending::Chunks(_) => panic!("no stream was asked for"),
    }
    assert!(c.event(4, Event::<f32>::Content("x".into())).is_err());
    assert_eq!(choice_finish(1, Reason::Stop), "tool_calls");
    let _ = StreamOptions { include_usage: true };
}

#[test]
fn an_unterminated_call_comes_back_raw() {
    let mut ts = ToolStream::new(vec![]);
    let mut text = String::new();
    let mut calls = Vec::new();
    collect(ts.push("<tool_call>\n<function=a>\n</function>\n</tool_call><tool_call>\nfoo \n"), &mut text, &mut calls);
    assert_eq!((text.as_str(), calls.len()), ("", 1));
    collect(ts.finish(), &mut text, &mut calls);
    assert_eq!((text.as_str(), calls.len()), ("<tool_call>\nfoo \n", 1));
    // what is no call is trimmed behind one
    let mut ts = ToolStream::new(vec![]);
    let mut text = String::new();
    collect(ts.push("<tool_call>\n<function=a>\n</function>\n</tool_call> <too"), &mut text, &mut calls);
    collect(ts.finish(), &mut text, &mut calls);
    assert_eq!(text, "<too");
}

#[test]
fn the_most_specific_thinking_setting_decides() {
    let place = |on: Option<bool>, effort: Option<&str>| ReasoningParam { enabled: on, effort: effort.map(|e| e.into()), temperature: None, top_p: None, top_k: None };
    let kwargs = |on: Option<bool>, effort: Option<&str>| TemplateKwargs { enable_thinking: on, reasoning_effort: effort.map(|e| e.into()) };
    // the template's effort stands before every other switch
    let mut r = request();
    r.chat_template_kwargs = Some(kwargs(None, Some("low")));
    r.enable_thinking = Some(false);
    r.reasoning = Some(place(Some(false), None));
    assert_eq!(resolve_thinking(&r, Thinking::XHigh).unwrap(), Thinking::Low);
    r.chat_template_kwargs = Some(kwargs(None, Some("none")));
    r.enable_thinking = Some(true);
    assert_eq!(resolve_thinking(&r, Thinking::XHigh).unwrap(), Thinking::Off);
    // the template's switch stands before its effort
    r.chat_template_kwargs = Some(kwargs(Some(false), Some("low")));
    assert_eq!(resolve_thinking(&r, Thinking::XHigh).unwrap(), Thinking::Off);
    r.chat_template_kwargs = Some(kwargs(Some(true), Some("none")));
    assert_eq!(resolve_thinking(&r, Thinking::Low).unwrap(), Thinking::XHigh);
    // the request's switch stands before `reasoning`, and takes its effort
    r.chat_template_kwargs = None;
    r.reasoning = Some(place(Some(false), Some("medium")));
    assert_eq!(resolve_thinking(&r, Thinking::XHigh).unwrap(), Thinking::Medium);
    r.enable_thinking = None;
    assert_eq!(resolve_thinking(&r, Thinking::XHigh).unwrap(), Thinking::Off);
    // `reasoning` stands before `reasoning_effort`
    r.reasoning = Some(place(None, Some("medium")));
    r.reasoning_effort = Some("low".into());
    assert_eq!(resolve_thinking(&r, Thinking::XHigh).unwrap(), Thinking::Medium);
    r.reasoning = Some(place(Some(true), None));
    assert_eq!(resolve_thinking(&r, Thinking::XHigh).unwrap(), Thinking::Low);
}

#[test]
fn expanded_spans_cover_the_expanded_prompt() {
    let spans = [Span::new(0, 1, Role::System), Span::new(1, 4, Role::User), Span::new(4, 6, Role::Tool)];
    let ids = [9, 9, 1, 9, 2, 3];
    let e = expand_spans(&spans, &ids, 9, &[2, 5, 1]);
    assert_eq!(e, vec![Span::new(0, 2, Role::System), Span::new(2, 9, Role::User), Span::new(9, 11, Role::Tool)]);
}
