//! Answers of the API, ends of outputs, and images that are refused.
use tr_infer::api::{check_sampling, error_json, model_body, no_model_message, no_route_message};
use tr_infer::completion::{completion_chunk, Completion, Ending, BAD_INDEX};
use tr_infer::emit::Emitter;
use tr_infer::engine::{
    accept_draft, clipped_spans, is_stop, stop_tokens, Event, GenParams, Reason, Sampling, Stepped,
};
use tr_infer::http::{push_hexadecimal, HttpError, Parser};
use tr_infer::images::{check_image, Rgb};
use tr_infer::json::Json;
use tr_infer::object::{header_json_len, now, object_name, parse_name, Kind};
use tr_infer::policy::Policies;
use tr_infer::role::{Role, Span};
use tr_infer::roles::Setting;
use tr_infer::serving::widest;

fn text(b: Vec<u8>) -> String {
    String::from_utf8(b).unwrap()
}

#[test]
fn errors_carry_their_type() {
    for (status, kind) in [(401, "authentication_error"), (404, "not_found_error"), (400, "invalid_request_error"), (503, "server_error")] {
        let (st, body) = error_json(status, "a \"b\"");
        assert_eq!(st, status);
        assert_eq!(text(body), format!("{{\"error\":{{\"message\":\"a \\\"b\\\"\",\"type\":\"{kind}\",\"param\":null,\"code\":null}}}}"));
    }
    assert_eq!(no_model_message("x"), "model \"x\" not found");
    assert_eq!(no_route_message("PUT", "/v1"), "no route for PUT /v1");
    assert_eq!(model_body("m", 7), "{\"id\":\"m\",\"object\":\"model\",\"created\":7,\"owned_by\":\"tr-infer\"}");
}

#[test]
fn a_chunk_names_its_choice() {
    let s = completion_chunk("a0001", 5, "m", 2, Json::Object(vec![]), Some("stop"));
    assert_eq!(
        s,
        "data: {\"id\":\"chatcmpl-a0001\",\"object\":\"chat.completion.chunk\",\"created\":5,\"model\":\"m\",\"choices\":[{\"index\":2,\"delta\":{},\"logprobs\":null,\"finish_reason\":\"stop\"}]}\n\n"
    );
}

#[test]
fn a_failed_answer_ends_as_far_as_it_has_come() {
    let mut c = Completion::new("a0001", 5, "m", true, false, 3, &vec![], 1);
    assert!(!c.started());
    match c.fail("broken") {
        Ending::Body(500, b) => assert_eq!(b, text(error_json(500, "broken").1)),
        _ => panic!("nothing was sent yet"),
    }
    assert_eq!(c.event(3, Event::<f32>::Content("x".to_string())), Err(BAD_INDEX.to_string()));
    assert_eq!(c.event(0, Event::<f32>::Error("down".to_string())), Err("down".to_string()));
    assert!(!c.event(0, Event::<f32>::Content("x".to_string())).unwrap().is_empty());
    assert!(c.started());
    match c.fail("broken") {
        Ending::Chunks(v) => {
            assert_eq!(v, vec![format!("data: {}\n\n", text(error_json(500, "broken").1)), "data: [DONE]\n\n".to_string()])
        }
        _ => panic!("the stream has begun"),
    }
}

#[test]
fn drafts_end_at_stop_tokens_and_stop_strings() {
    assert_eq!(stop_tokens(5, 9), vec![5, 9]);
    assert_eq!(stop_tokens(5, 5), vec![5]);
    assert!(is_stop(&[5, 9], 9) && !is_stop(&[5, 9], 8));
    let mut em = Emitter::new(&vec!["END".to_string()], false);
    let t = accept_draft(&mut em, &[5], 1, "a");
    assert_eq!(t.end, None);
    assert_eq!(accept_draft(&mut em, &[5], 5, "").end, Some(Reason::Stop));
    assert_eq!(em.generated(), 1);
    assert_eq!(accept_draft(&mut em, &[5], 2, "END").end, Some(Reason::Stop));
    assert_eq!(em.generated(), 2);
}

#[test]
fn every_output_has_its_own_seed() {
    let s = Sampling { temp: 1u8, top_k: 1, top_p: 1 };
    let t = Sampling { temp: 2u8, top_k: 2, top_p: 2 };
    let mut p = GenParams { max_tokens: 1, sampling: s, think: Some(t), seed: u64::MAX, stop: vec![], thinking_open: true };
    assert_eq!(p.seed_of(0), u64::MAX);
    assert_eq!(p.seed_of(2), 1);
    assert_eq!(p.first().temp, 2);
    p.thinking_open = false;
    assert_eq!(p.first().temp, 1);
}

#[test]
fn a_prompt_that_ends_with_the_state_needs_logits() {
    let mut s = Stepped::new();
    assert_eq!(s.begin(&[1, 2], &[]), 0);
    s.extend(&[1, 2], 0, 2);
    s.settle(&[], false);
    assert_eq!(s.begin(&[1, 2, 3], &[]), 2);
    s.set_logits(true);
    assert_eq!(s.begin(&[1, 2], &[]), 2);
    s.set_logits(false);
    assert_eq!(s.begin(&[1, 2], &[]), 0);
    assert_eq!(clipped_spans(&[Span::new(0, 4, Role::User), Span::new(4, 6, Role::Tool)], 3), vec![Span::new(0, 3, Role::User)]);
}

#[test]
fn images_out_of_range_are_refused() {
    assert_eq!(check_image(Ok(Rgb { width: 0, height: 3, data: vec![] })), Err("image 0x3 out of range".to_string()));
    assert_eq!(
        check_image(Ok(Rgb { width: 70000, height: 1000, data: vec![] })),
        Err("image 70000x1000 out of range".to_string())
    );
    assert_eq!(check_image(Ok(Rgb { width: 1, height: 1, data: vec![1, 2, 3] })), Ok((vec![1, 2, 3], 1, 1)));
    assert_eq!(check_image(Err("no image".to_string())), Err("decode image: no image".to_string()));
    assert!(tr_infer::images::decode(b"not an image").unwrap_err().starts_with("decode image: "));
}

#[test]
fn bodies_are_awaited_where_the_client_asks() {
    let mut p = Parser::new();
    for l in ["POST / HTTP/1.1\r\n", "Expect: 100-Continue\r\n", "Content-Length: 2\r\n", "\r\n"] {
        p.line(l).unwrap();
    }
    assert!(p.awaits_continue() && !p.chunked());
    let mut p = Parser::new();
    for l in ["POST / HTTP/1.1\r\n", "Transfer-Encoding: chunked\r\n", "\r\n"] {
        p.line(l).unwrap();
    }
    assert!(p.chunked() && !p.awaits_continue());
    assert_eq!(p.line("xyz\r\n"), Err(HttpError::BadChunk));
    let mut s = String::new();
    push_hexadecimal(&mut s, 0);
    push_hexadecimal(&mut s, 0x1f0a);
    assert_eq!(s, "01f0a");
}

#[test]
fn object_names_tell_key_and_kind() {
    let k = tr_infer::key::root_key(&["x"]);
    let n = object_name(&k, Kind::Snapshot);
    assert_eq!(n, format!("{}.{}", k.hex(), Kind::Snapshot.ext()));
    assert_eq!(parse_name(&n), Some((k, Kind::Snapshot)));
    assert_eq!(Kind::from_ext(Kind::Rows.ext()), Some(Kind::Rows));
    assert_eq!(Kind::from_ext("zip"), None);
    assert!(header_json_len(&[0; 7]).is_err());
    assert!(header_json_len(&[1; 8]).is_err());
    // long after the crate was begun
    assert!(now() > 1_700_000_000);
}

#[test]
fn settings_of_roles_become_values() {
    assert!(matches!(Setting::Switch(true).to_json(), Json::Bool(true)));
    assert_eq!(Setting::Count(7).to_json().as_u64(), Some(7));
    let mut p = Policies::default();
    assert!(!p.any_ttl());
    p.get_mut(Role::Tool).ttl = Some(60);
    assert!(p.any_ttl());
    assert_eq!(p.get(Role::Tool).ttl, Some(60));
    assert_eq!(p.get(Role::User).ttl, None);
    assert_eq!(widest(8, 3), 8);
    assert_eq!(widest(2, 3), 4);
}

#[test]
fn sampling_settings_have_their_ranges() {
    let check = |t: f32, p: f32| check_sampling(t.to_bits(), p.to_bits());
    for t in [-0.0f32, 0.0, 1e-45, 0.7, 2.0] {
        for p in [1e-45f32, 0.5, 1.0] {
            assert_eq!(check(t, p), Ok(()), "{t} {p}");
        }
    }
    for t in [-1e-45f32, 2.0000002, f32::NAN, f32::INFINITY, f32::NEG_INFINITY] {
        assert_eq!(check(t, 0.0), Err("temperature must be between 0 and 2".to_string()), "{t}");
    }
    for p in [0.0f32, -0.0, -0.5, 1.0000001, f32::NAN] {
        assert_eq!(check(1.0, p), Err("top_p must be in (0, 1]".to_string()), "{p}");
    }
}
