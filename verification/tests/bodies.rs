use zcode_switcher::bodies::{
    anthropic_to_openai_body, estimate_input_tokens, is_stream_request, local_provider_value,
    normalize_zcode_body, upsert_local_provider,
};
use zcode_switcher::json::{set_field, to_json_text, JsonValue};

fn s(x: &str) -> JsonValue {
    JsonValue::Str(x.to_string())
}

fn num(x: &str) -> JsonValue {
    JsonValue::Number(x.to_string())
}

fn obj(pairs: Vec<(&str, JsonValue)>) -> JsonValue {
    JsonValue::Object(pairs.into_iter().map(|(k, v)| (k.to_string(), v)).collect())
}

fn arr(items: Vec<JsonValue>) -> JsonValue {
    JsonValue::Array(items)
}

#[test]
fn json_text_is_compact_and_escaped() {
    let v = obj(vec![
        ("a", JsonValue::Null),
        ("b", JsonValue::Bool(true)),
        ("c", num("1.5")),
        ("d", arr(vec![s("x\ny"), s("tab\t")])),
    ]);
    assert_eq!(to_json_text(&v), r#"{"a":null,"b":true,"c":1.5,"d":["x\ny","tab\t"]}"#);
    assert_eq!(to_json_text(&arr(vec![])), "[]");
    assert_eq!(to_json_text(&s("\u{1}\u{1f}\u{8}\u{c}\r\\/é")), r#""\u0001\u001f\b\f\r\\/é""#);
    assert_eq!(to_json_text(&obj(vec![])), "{}");
}

#[test]
fn json_get_after_set_field() {
    let mut ms = vec![("a".to_string(), num("1")), ("b".to_string(), num("2"))];
    set_field(&mut ms, "a", s("new"));
    set_field(&mut ms, "c", num("3"));
    let v = JsonValue::Object(ms);
    assert_eq!(to_json_text(&v), r#"{"a":"new","b":2,"c":3}"#);
    assert_eq!(v.get("a").and_then(|x| x.as_str()), Some("new"));
    assert_eq!(to_json_text(v.get("b").unwrap()), "2");
    assert!(v.get("z").is_none());
    // setting again with the same value changes nothing
    let mut ms2 = match v.copy() {
        JsonValue::Object(m) => m,
        _ => unreachable!(),
    };
    set_field(&mut ms2, "c", num("3"));
    assert_eq!(to_json_text(&JsonValue::Object(ms2)), to_json_text(&v));
}

#[test]
fn stream_flag_must_be_true() {
    assert!(is_stream_request(&obj(vec![("stream", JsonValue::Bool(true))])));
    assert!(!is_stream_request(&obj(vec![("stream", JsonValue::Bool(false))])));
    assert!(!is_stream_request(&obj(vec![("stream", s("true"))])));
    assert!(!is_stream_request(&obj(vec![])));
    assert!(!is_stream_request(&s("stream")));
}

#[test]
fn token_estimate_counts_string_characters() {
    let v = obj(vec![
        ("model", s("glm")),
        ("messages", arr(vec![obj(vec![("content", s("你好世界abcd"))])])),
        ("max_tokens", num("100000")),
    ]);
    // 3 + 8 characters in strings, keys not counted
    assert_eq!(estimate_input_tokens(&v), 2);
    assert_eq!(estimate_input_tokens(&obj(vec![])), 1);
    assert_eq!(estimate_input_tokens(&s("abcdefghijklmnop")), 4);
}

#[test]
fn local_provider_entry_shape() {
    let v = local_provider_value("http://127.0.0.1:17860", "k");
    let t = to_json_text(&v);
    assert!(t.starts_with(r#"{"name":"ZCode Switcher","kind":"anthropic","options":{"apiKey":"k","apiKeyRequired":true,"baseURL":"http://127.0.0.1:17860"},"enabled":true,"source":"custom","models":{"GLM-5.3 Flash":"#));
    assert!(t.contains(r#""GLM-5.2":{"limit":{"context":1000000},"modalities":{"input":["text"],"output":["text"]}}"#));
}

#[test]
fn upsert_into_missing_config() {
    let c = upsert_local_provider(None, 17860, "key-123456789").unwrap();
    let p = c.get("provider").unwrap();
    let e = p.get("custom:zcode-switcher-local-api").unwrap();
    assert_eq!(
        to_json_text(e.get("options").unwrap()),
        r#"{"apiKey":"key-123456789","apiKeyRequired":true,"baseURL":"http://127.0.0.1:17860"}"#
    );
}

#[test]
fn upsert_keeps_other_settings_and_providers() {
    let cfg = obj(vec![
        ("theme", s("dark")),
        ("provider", obj(vec![("other", obj(vec![("name", s("Other"))]))])),
    ]);
    let c = upsert_local_provider(Some(cfg), 9000, "gateway-key-1").unwrap();
    assert_eq!(c.get("theme").and_then(|x| x.as_str()), Some("dark"));
    let p = c.get("provider").unwrap();
    assert!(p.get("other").is_some());
    let e = p.get("custom:zcode-switcher-local-api").unwrap();
    assert_eq!(
        e.get("options").unwrap().get("baseURL").and_then(|x| x.as_str()),
        Some("http://127.0.0.1:9000")
    );
    // upserting the result again changes nothing
    let again = upsert_local_provider(Some(c.copy()), 9000, "gateway-key-1").unwrap();
    assert_eq!(to_json_text(&again), to_json_text(&c));
}

#[test]
fn upsert_replaces_non_object_config_and_rejects_bad_provider() {
    let c = upsert_local_provider(Some(arr(vec![num("1")])), 1, "abcdefghijkl").unwrap();
    assert!(c.get("provider").is_some());
    let err = upsert_local_provider(Some(obj(vec![("provider", s("x"))])), 1, "abcdefghijkl").unwrap_err();
    assert_eq!(err, "ZCode provider 配置不是对象");
}

#[test]
fn openai_body_from_anthropic_request() {
    let req = obj(vec![
        ("model", s("zai/glm-5.3")),
        ("system", s("be brief")),
        (
            "messages",
            arr(vec![
                obj(vec![("role", s("user")), ("content", s("hi"))]),
                obj(vec![
                    ("role", s("assistant")),
                    (
                        "content",
                        arr(vec![
                            obj(vec![("type", s("text")), ("text", s("a"))]),
                            obj(vec![("type", s("image"))]),
                            obj(vec![("type", s("text")), ("text", s("b"))]),
                        ]),
                    ),
                ]),
                obj(vec![("content", s("no role"))]),
                arr(vec![s("user"), num("7")]),
            ]),
        ),
        ("temperature", num("0.5")),
    ]);
    let body = anthropic_to_openai_body(&req);
    assert_eq!(
        to_json_text(&body),
        r#"{"model":"glm-5.3","messages":[{"role":"system","content":"be brief"},{"role":"user","content":"hi"},{"role":"assistant","content":"a\nb"},{"role":"user","content":"7"}],"stream":false,"temperature":0.5}"#
    );
}

#[test]
fn openai_body_defaults() {
    let req = obj(vec![
        ("system", s("   ")),
        ("stream", JsonValue::Bool(true)),
        ("max_tokens", num("64")),
        ("system_extra", JsonValue::Null),
    ]);
    let body = anthropic_to_openai_body(&req);
    assert_eq!(
        to_json_text(&body),
        r#"{"model":"glm-5.3-flash","messages":[],"stream":true,"max_tokens":64}"#
    );
    let structured = obj(vec![("system", arr(vec![obj(vec![("text", s("x"))])]))]);
    let body = anthropic_to_openai_body(&structured);
    assert_eq!(
        to_json_text(&body),
        r#"{"model":"glm-5.3-flash","messages":[{"role":"system","content":"[{\"text\":\"x\"}]"}],"stream":false}"#
    );
}

#[test]
fn zcode_body_normalizes_model_and_contents() {
    let req = obj(vec![
        ("model", s("zai/glm-5.3 flash")),
        (
            "messages",
            arr(vec![
                obj(vec![("role", s("user")), ("content", s("hello"))]),
                obj(vec![("role", s("user")), ("content", arr(vec![]))]),
                s("not a message"),
            ]),
        ),
        ("stream", JsonValue::Bool(true)),
    ]);
    let body = normalize_zcode_body(&req);
    assert_eq!(
        to_json_text(&body),
        r#"{"model":"GLM-5.3 Flash","messages":[{"role":"user","content":[{"type":"text","text":"hello"}]},{"role":"user","content":[]},"not a message"],"stream":true}"#
    );
    // rewriting again changes nothing
    assert_eq!(to_json_text(&normalize_zcode_body(&body)), to_json_text(&body));
    let odd = arr(vec![num("1")]);
    assert_eq!(to_json_text(&normalize_zcode_body(&odd)), "[1]");
}
