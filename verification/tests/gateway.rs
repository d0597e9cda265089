use zcode_switcher::gateway::{
    check_gateway_auth, current_status, error_payload, invalid_request, is_captcha_response, is_captcha_text,
    messages_url, normalize_model_id, normalize_zcode_model, openai_chat_url,
    provider_error_response, status_for, stopped_status, unauthorized, validate_start_request,
    DEFAULT_PROXY_PORT, ZCODE_MESSAGES_URL, ZCODE_SWITCHER_PROVIDER_ID,
};
use zcode_switcher::json::to_json_text;

#[test]
fn normalize_model_ids_supports_glm_5_3_family() {
    assert_eq!(normalize_zcode_model("glm-5.3"), "GLM-5.3");
    assert_eq!(normalize_zcode_model("GLM-5.3"), "GLM-5.3");
    assert_eq!(normalize_zcode_model("glm-5.3-flash"), "GLM-5.3 Flash");
    assert_eq!(normalize_zcode_model("glm-5.3 flash"), "GLM-5.3 Flash");
    assert_eq!(normalize_zcode_model("glm-5.3flash"), "GLM-5.3 Flash");
    // older models keep working
    assert_eq!(normalize_zcode_model("glm-5.2"), "GLM-5.2");
    assert_eq!(normalize_zcode_model("glm-5-turbo"), "GLM-5-Turbo");
    // a path prefix is dropped
    assert_eq!(normalize_zcode_model("zai/glm-5.3"), "GLM-5.3");
    // unknown models are kept as they are
    assert_eq!(normalize_zcode_model("glm-9.9"), "glm-9.9");
}

#[test]
fn zcode_model_other_aliases() {
    assert_eq!(normalize_zcode_model("glm-turbo"), "GLM-5-Turbo");
    assert_eq!(normalize_zcode_model("GLM-5.1"), "GLM-5.1");
    assert_eq!(normalize_zcode_model("glm-4.7"), "GLM-4.7");
    assert_eq!(normalize_zcode_model("a/b/Glm-5.3-Flash"), "GLM-5.3 Flash");
    assert_eq!(normalize_zcode_model("zai/glm-9.9"), "glm-9.9");
    assert_eq!(normalize_zcode_model(""), "");
}

#[test]
fn zcode_model_normalizing_twice_is_normalizing_once() {
    for m in ["glm-5.3 flash", "GLM-5-TURBO", "x/glm-4.7", "custom-model", "p/q/r"] {
        let once = normalize_zcode_model(m);
        assert_eq!(normalize_zcode_model(&once), once);
    }
}

#[test]
fn zcode_model_ignores_provider_prefix() {
    for m in ["glm-5.3", "GLM-5.2", "other", "a/glm-5.1"] {
        let prefixed = format!("provider/{}", m);
        assert_eq!(normalize_zcode_model(&prefixed), normalize_zcode_model(m));
    }
}

#[test]
fn model_id_keeps_last_segment() {
    assert_eq!(normalize_model_id("zai/glm-5.3"), "glm-5.3");
    assert_eq!(normalize_model_id("glm-5.3"), "glm-5.3");
    assert_eq!(normalize_model_id("a/b/"), "");
}

#[test]
fn status_reports_local_base_url() {
    let s = status_for(8080, true);
    assert!(s.running);
    assert_eq!(s.port, 8080);
    assert_eq!(s.base_url, "http://127.0.0.1:8080/v1");
    let idle = current_status(None);
    assert!(!idle.running);
    assert_eq!(idle.port, DEFAULT_PROXY_PORT);
    assert_eq!(idle.base_url, "http://127.0.0.1:17860/v1");
    let up = current_status(Some(9000));
    assert!(up.running);
    assert_eq!(up.base_url, "http://127.0.0.1:9000/v1");
    let stopped = stopped_status(Some(9000));
    assert!(!stopped.running);
    assert_eq!(stopped.port, 9000);
    let never = stopped_status(None);
    assert_eq!(never.port, 0);
    assert_eq!(never.base_url, "http://127.0.0.1:0/v1");
}

#[test]
fn provider_urls_get_their_suffix_once() {
    assert_eq!(messages_url("https://api.example.com/v1/"), "https://api.example.com/v1/messages");
    assert_eq!(messages_url("https://api.example.com/v1/messages//"), "https://api.example.com/v1/messages");
    assert_eq!(openai_chat_url("https://x.io/v1"), "https://x.io/v1/chat/completions");
    assert_eq!(openai_chat_url("https://x.io/v1/chat/completions"), "https://x.io/v1/chat/completions");
}

#[test]
fn gateway_key_checks() {
    let key = "secret-key-123456";
    assert!(check_gateway_auth(Some("Bearer secret-key-123456"), None, key).is_ok());
    assert!(check_gateway_auth(None, Some("secret-key-123456"), key).is_ok());
    assert!(check_gateway_auth(Some("Bearer wrong"), Some("secret-key-123456"), key).is_ok());
    let err = check_gateway_auth(Some("secret-key-123456"), None, key).unwrap_err();
    assert_eq!(err.status, 401);
    assert!(!err.event_stream);
    assert_eq!(
        to_json_text(&err.payload),
        r#"{"error":{"type":"authentication_error","message":"Missing or invalid local gateway key"}}"#
    );
    assert!(check_gateway_auth(None, None, key).is_err());
    assert!(check_gateway_auth(Some("bearer secret-key-123456"), Some("other"), key).is_err());
}

#[test]
fn error_replies() {
    let u = unauthorized();
    assert_eq!(u.status, 401);
    let bad = invalid_request("Invalid JSON body: eof");
    assert_eq!(bad.status, 400);
    assert_eq!(
        to_json_text(&bad.payload),
        r#"{"error":{"type":"invalid_request_error","message":"Invalid JSON body: eof"}}"#
    );
    let streamed = provider_error_response(true, 502, "provider_error", "down");
    assert_eq!(streamed.status, 200);
    assert!(streamed.event_stream);
    let plain = provider_error_response(false, 502, "provider_error", "down");
    assert_eq!(plain.status, 502);
    assert!(!plain.event_stream);
    assert_eq!(
        to_json_text(&error_payload("t", "say \"hi\"")),
        r#"{"error":{"type":"t","message":"say \"hi\""}}"#
    );
}

#[test]
fn captcha_rejections_need_403_and_a_marker() {
    assert!(is_captcha_response(403, b"{\"code\":3007}"));
    assert!(is_captcha_response(403, b"Please VERIFY you are human"));
    assert!(is_captcha_response(403, "需要输入验证码".as_bytes()));
    assert!(is_captcha_response(403, "参数校验失败".as_bytes()));
    assert!(is_captcha_response(403, b"CAPTCHA required"));
    assert!(!is_captcha_response(403, b"forbidden"));
    assert!(!is_captcha_response(429, b"captcha"));
    // invalid UTF-8 is decoded lossily before the search
    assert!(is_captcha_response(403, &[0xff, b'3', b'0', b'0', b'7']));
    assert!(!is_captcha_response(403, &[0xff, 0xfe]));
    assert!(is_captcha_text(403, "Captcha"));
    assert!(!is_captcha_text(200, "captcha"));
    assert!(!is_captcha_text(403, "ok"));
}

#[test]
fn start_request_validation() {
    assert_eq!(validate_start_request(17860, "  abcdefghijkl  ").unwrap(), "abcdefghijkl");
    assert_eq!(
        validate_start_request(17860, "short   ").unwrap_err(),
        "本地网关密钥至少需要 12 个字符"
    );
    assert_eq!(validate_start_request(0, "abcdefghijklmnop").unwrap_err(), "端口号无效");
    // the length is counted in UTF-8 bytes: four CJK characters are twelve bytes
    assert_eq!(validate_start_request(1, "密钥密钥").unwrap(), "密钥密钥");
}

#[test]
fn gateway_constants() {
    assert_eq!(ZCODE_MESSAGES_URL, "https://zcode.z.ai/api/v1/zcode-plan/anthropic/v1/messages");
    assert_eq!(ZCODE_SWITCHER_PROVIDER_ID, "custom:zcode-switcher-local-api");
}
