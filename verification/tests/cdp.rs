use zcode_switcher::cdp::{
    evaluate_reply, failure_line, page_debugger_urls, reload_eval_request, reload_outcome,
    ReplyDecision, CDP_PORT,
};
use zcode_switcher::json::{to_json_text, JsonValue};

fn s(x: &str) -> JsonValue {
    JsonValue::Str(x.to_string())
}

fn obj(pairs: Vec<(&str, JsonValue)>) -> JsonValue {
    JsonValue::Object(pairs.into_iter().map(|(k, v)| (k.to_string(), v)).collect())
}

fn target(kind: &str, url: &str, ws: Option<&str>) -> JsonValue {
    let mut pairs = vec![("type", s(kind)), ("url", s(url))];
    if let Some(w) = ws {
        pairs.push(("webSocketDebuggerUrl", s(w)));
    }
    obj(pairs)
}

#[test]
fn reload_command_text() {
    assert_eq!(CDP_PORT, 9229);
    assert_eq!(
        to_json_text(&reload_eval_request()),
        r#"{"id":1,"method":"Runtime.evaluate","params":{"expression":"location.reload()","userGesture":true,"awaitPromise":false,"returnByValue":false}}"#
    );
}

#[test]
fn only_real_pages_are_reloaded() {
    let targets = vec![
        target("page", "app://zcode/index.html", Some("ws://127.0.0.1:9229/devtools/page/1")),
        target("page", "devtools://devtools/bundled/inspector.html", Some("ws://a")),
        target("service_worker", "app://zcode/sw.js", Some("ws://b")),
        target("page", "chrome-extension://abc/page.html", Some("ws://c")),
        target("page", "app://zcode/other.html", None),
        target("page", "app://zcode/second.html", Some("ws://127.0.0.1:9229/devtools/page/2")),
    ];
    let urls = page_debugger_urls(&targets).unwrap();
    assert_eq!(
        urls,
        vec![
            "ws://127.0.0.1:9229/devtools/page/1".to_string(),
            "ws://127.0.0.1:9229/devtools/page/2".to_string(),
        ]
    );
}

#[test]
fn no_page_is_an_error() {
    let targets = vec![target("iframe", "x", Some("ws://x"))];
    assert_eq!(page_debugger_urls(&targets).unwrap_err(), "CDP 未发现可刷新的 ZCode 页面");
    assert!(page_debugger_urls(&vec![]).is_err());
}

#[test]
fn reading_devtools_replies() {
    assert!(matches!(evaluate_reply(None), ReplyDecision::KeepReading));
    let other = obj(vec![("id", JsonValue::Number("2".into()))]);
    assert!(matches!(evaluate_reply(Some(&other)), ReplyDecision::KeepReading));
    let event = obj(vec![("method", s("Runtime.consoleAPICalled"))]);
    assert!(matches!(evaluate_reply(Some(&event)), ReplyDecision::KeepReading));
    let ok = obj(vec![("id", JsonValue::Number("1".into())), ("result", obj(vec![]))]);
    assert!(matches!(evaluate_reply(Some(&ok)), ReplyDecision::Reloaded));
    let failed = obj(vec![
        ("id", JsonValue::Number("1".into())),
        ("error", obj(vec![("code", JsonValue::Number("-32000".into())), ("message", s("x"))])),
    ]);
    match evaluate_reply(Some(&failed)) {
        ReplyDecision::Failed(e) => assert_eq!(e, r#"evaluate 失败：{"code":-32000,"message":"x"}"#),
        _ => panic!("expected a failure"),
    }
}

#[test]
fn reload_results_are_joined() {
    assert!(reload_outcome(&vec![]).is_ok());
    let failures = vec![failure_line("ws://a", "timeout"), failure_line("ws://b", "closed")];
    assert_eq!(reload_outcome(&failures).unwrap_err(), "ws://a: timeout；ws://b: closed");
}
