//! Small parts: texts, values and their JSON.
use tr_infer::chat::Stop;
use tr_infer::emit::Piece;
use tr_infer::engine::Event;
use tr_infer::json::{parse, to_compact, Json};
use tr_infer::text::{
    decimal_digit, digit_value, is_before, join, leading_white, to_decimal, to_hex, trim_end_len,
};
use tr_infer::tools::{type_value, type_value_of};
use tr_infer::utf8::char_width;

fn chars(s: &str) -> Vec<char> {
    s.chars().collect()
}

#[test]
fn stop_strings_come_alone_or_in_a_list() {
    assert_eq!(Stop::One("a".to_string()).into_vec(), vec!["a"]);
    assert_eq!(Stop::Many(vec!["a".to_string(), "b".to_string()]).into_vec(), vec!["a", "b"]);
    assert!(Stop::Many(vec![]).into_vec().is_empty());
}

#[test]
fn pieces_become_events() {
    assert!(matches!(Event::<f32>::of_piece(Piece::Reasoning("r".to_string())), Event::Reasoning(t) if t == "r"));
    assert!(matches!(Event::<f32>::of_piece(Piece::Content("c".to_string())), Event::Content(t) if t == "c"));
}

#[test]
fn white_space_is_what_unicode_says() {
    for c in (0..0x3100u32).filter_map(char::from_u32) {
        assert_eq!(leading_white(&[c]) == 1, c.is_whitespace(), "{c:?}");
        assert_eq!(trim_end_len(&[c]) == 0, c.is_whitespace(), "{c:?}");
    }
    assert_eq!(leading_white(&chars("\u{a0}\t x ")), 3);
    assert_eq!(trim_end_len(&chars(" x\u{3000}\n")), 2);
}

#[test]
fn digits_and_widths() {
    assert_eq!(to_decimal(u64::MAX), u64::MAX.to_string());
    assert_eq!(to_decimal(0), "0");
    assert_eq!(decimal_digit('7'), Some(7));
    assert_eq!(decimal_digit('٧'), None);
    assert_eq!(to_hex(&[0, 0x9f, 0xff]), "009fff");
    assert_eq!(digit_value('f'), Some(15));
    assert_eq!(digit_value('g'), None);
    for c in ['a', 'é', '€', '😀'] {
        assert_eq!(char_width(c), c.len_utf8());
    }
    assert_eq!(join(&vec!["a".to_string(), "b".to_string()], ", "), "a, b");
    assert_eq!(join(&vec![], ", "), "");
    for (a, b) in [("a", "b"), ("a", "ab"), ("", "a"), ("é", "😀"), ("b", "a")] {
        assert_eq!(is_before(&chars(a), &chars(b)), a < b);
    }
}

#[test]
fn values_are_typed_by_their_parameter() {
    let ty = |t: &str| Some(chars(t));
    assert!(matches!(type_value(&chars("1"), ty("string")), Json::Text(t) if t == "1"));
    assert!(matches!(type_value(&chars("1"), ty("integer")), Json::Number(t) if t == "1"));
    assert!(matches!(type_value(&chars("one"), ty("integer")), Json::Text(t) if t == "one"));
    assert!(matches!(type_value(&chars("\"a\""), ty("object")), Json::Text(t) if t == "a"));
    assert!(matches!(type_value(&chars("\"a\""), None), Json::Text(t) if t == "\"a\""));
    assert!(matches!(type_value(&chars("true"), ty("")), Json::Bool(true)));
    assert!(matches!(type_value_of(&chars("x"), None, Some(Json::Null)), Json::Null));
    assert!(matches!(type_value_of(&chars("x"), None, None), Json::Text(t) if t == "x"));
}

#[test]
fn compact_texts_are_those_of_the_json_crate() {
    for s in [
        "null",
        "[true, false, [], {}]",
        r#"{"b": 1, "a": -2.5e-3, "c": 18446744073709551615, "d": [1.0, 0, -0.0]}"#,
        r#""\u0000\u001f\b\f\n\r\t\"\\\/ \u007f é 😀  ""#,
        r#"{"": "", "x\ny": {"z": ["\u0001"]}}"#,
        "[1e400]",
        "{\"a\":1,\"a\":2}",
    ] {
        let theirs = serde_json::from_str::<serde_json::Value>(s);
        match (parse(s.as_bytes()), theirs) {
            (Some(v), Ok(t)) => assert_eq!(to_compact(&v), t.to_string(), "{s}"),
            (None, Err(_)) => {}
            _ => panic!("{s} is read by one alone"),
        }
    }
}
