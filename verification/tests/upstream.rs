use zcode_switcher::json::{to_json_text, JsonValue};
use zcode_switcher::upstream::{
    choose_upstreams, custom_provider_upstream, is_oauth_mode, list_models,
    provider_request_headers, zcode_request_headers, ApiFormat, CustomProvider, PoolProfile,
    Upstream,
};

fn provider(id: &str, format: ApiFormat, base: &str, models: &[&str]) -> CustomProvider {
    CustomProvider {
        id: id.to_string(),
        name: format!("{} name", id),
        api_format: format,
        base_url: base.to_string(),
        models: models.iter().map(|m| m.to_string()).collect(),
    }
}

fn request(model: Option<&str>) -> JsonValue {
    let mut ms = Vec::new();
    if let Some(m) = model {
        ms.push(("model".to_string(), JsonValue::Str(m.to_string())));
    }
    JsonValue::Object(ms)
}

fn profile(name: &str, mode: &str, token: Option<&str>) -> PoolProfile {
    PoolProfile { name: name.to_string(), mode: mode.to_string(), token: token.map(|t| t.to_string()) }
}

fn label(u: &Upstream) -> String {
    match u {
        Upstream::ZcodeJwt { name, .. } => format!("account:{}", name),
        Upstream::CustomProvider { provider, url, .. } => format!("{}@{}", provider.id, url),
    }
}

#[test]
fn oauth_modes() {
    assert!(is_oauth_mode(""));
    assert!(is_oauth_mode("oauth"));
    assert!(!is_oauth_mode("apikey"));
    assert!(!is_oauth_mode("OAuth"));
}

#[test]
fn provider_upstream_urls() {
    let u = custom_provider_upstream(provider("o", ApiFormat::OpenAI, "https://o.io/v1/", &[]), "k".into());
    assert_eq!(label(&u), "o@https://o.io/v1/chat/completions");
    let a = custom_provider_upstream(provider("a", ApiFormat::Anthropic, "https://a.io", &[]), "k".into());
    assert_eq!(label(&a), "a@https://a.io/messages");
}

#[test]
fn accounts_first_then_serving_then_anthropic_then_rest() {
    let pool = vec![
        profile("one", "", Some("t1")),
        profile("two", "apikey", Some("t2")),
        profile("three", "oauth", None),
        profile("four", "oauth", Some("t4")),
    ];
    let providers = vec![
        (provider("p1", ApiFormat::OpenAI, "https://p1", &["x"]), "k1".to_string()),
        (provider("p2", ApiFormat::Anthropic, "https://p2", &["glm-5.3"]), "k2".to_string()),
        (provider("p3", ApiFormat::Anthropic, "https://p3", &[]), "k3".to_string()),
        (provider("p4", ApiFormat::OpenAI, "https://p4", &["glm-5.3"]), "k4".to_string()),
    ];
    let us = choose_upstreams(&request(Some("zai/glm-5.3")), Ok(pool), &providers).ok().unwrap();
    let labels: Vec<String> = us.iter().map(label).collect();
    assert_eq!(
        labels,
        vec![
            "account:one",
            "account:four",
            "p2@https://p2/messages",
            "p4@https://p4/chat/completions",
            "p3@https://p3/messages",
            "p1@https://p1/chat/completions",
        ]
    );
}

#[test]
fn every_provider_is_tried_once() {
    let providers = vec![
        (provider("a", ApiFormat::OpenAI, "https://a", &["m"]), "k".to_string()),
        (provider("b", ApiFormat::Anthropic, "https://b", &[]), "k".to_string()),
        (provider("c", ApiFormat::OpenAI, "https://c", &[]), "k".to_string()),
        (provider("d", ApiFormat::Anthropic, "https://d", &["m"]), "k".to_string()),
    ];
    let us = choose_upstreams(&request(Some("m")), Ok(vec![]), &providers).ok().unwrap();
    let mut ids: Vec<String> = us
        .iter()
        .map(|u| match u {
            Upstream::CustomProvider { provider, .. } => provider.id.clone(),
            Upstream::ZcodeJwt { name, .. } => name.clone(),
        })
        .collect();
    assert_eq!(ids, vec!["a", "d", "b", "c"]);
    ids.sort();
    assert_eq!(ids, vec!["a", "b", "c", "d"]);
}

#[test]
fn no_model_means_every_provider_serves() {
    let providers = vec![
        (provider("a", ApiFormat::OpenAI, "https://a", &["m"]), "k".to_string()),
        (provider("b", ApiFormat::Anthropic, "https://b", &[]), "k".to_string()),
    ];
    let us = choose_upstreams(&request(None), Ok(vec![]), &providers).ok().unwrap();
    let labels: Vec<String> = us.iter().map(label).collect();
    assert_eq!(labels, vec!["a@https://a/chat/completions", "b@https://b/messages"]);
}

#[test]
fn pool_error_is_a_bad_gateway() {
    let err = choose_upstreams(&request(Some("m")), Err("pool broken".into()), &vec![]).err().unwrap();
    assert_eq!(err.status, 502);
    assert!(!err.event_stream);
    assert_eq!(
        to_json_text(&err.payload),
        r#"{"error":{"type":"provider_error","message":"pool broken"}}"#
    );
}

#[test]
fn nothing_to_try_is_a_bad_gateway() {
    let pool = vec![profile("x", "apikey", Some("t"))];
    let err = choose_upstreams(&request(Some("m")), Ok(pool), &vec![]).err().unwrap();
    assert_eq!(err.status, 502);
    assert_eq!(
        to_json_text(&err.payload),
        r#"{"error":{"type":"provider_error","message":"No enabled account pool entry or custom provider"}}"#
    );
}

#[test]
fn model_list_entries() {
    let providers = vec![
        (provider("a", ApiFormat::OpenAI, "https://a", &["m1", "m2"]), "k".to_string()),
        (provider("b", ApiFormat::Anthropic, "https://b", &["m3"]), "k".to_string()),
    ];
    let items = list_models(true, &providers);
    let rows: Vec<String> = items
        .iter()
        .map(|i| format!("{}|{}|{}|{}", i.id, i.item_type, i.display_name, i.provider))
        .collect();
    assert_eq!(
        rows,
        vec![
            "glm-5.3-flash|model|GLM-5.3 Flash|ZCode account pool",
            "glm-5.3|model|GLM-5.3|ZCode account pool",
            "m1|model|m1|a name",
            "m2|model|m2|a name",
            "m3|model|m3|b name",
        ]
    );
    assert_eq!(list_models(false, &vec![]).len(), 0);
}

#[test]
fn account_request_headers() {
    let hs = zcode_request_headers("jwt", "param");
    assert_eq!(hs.len(), 8);
    assert_eq!(hs[1], ("authorization".to_string(), "Bearer jwt".to_string()));
    assert_eq!(hs[7], ("x-aliyun-captcha-verify-param".to_string(), "param".to_string()));
}

#[test]
fn provider_headers_by_format() {
    let o = provider_request_headers(ApiFormat::OpenAI, "key", false, None, None);
    assert_eq!(
        o,
        vec![
            ("content-type".to_string(), "application/json".to_string()),
            ("authorization".to_string(), "Bearer key".to_string()),
        ]
    );
    let a = provider_request_headers(ApiFormat::Anthropic, "key", false, None, Some("beta1"));
    assert_eq!(
        a,
        vec![
            ("content-type".to_string(), "application/json".to_string()),
            ("x-api-key".to_string(), "key".to_string()),
            ("anthropic-version".to_string(), "2023-06-01".to_string()),
            ("anthropic-beta".to_string(), "beta1".to_string()),
        ]
    );
    let v = provider_request_headers(ApiFormat::Anthropic, "key", true, Some("2024-01-01"), None);
    assert_eq!(v[2], ("anthropic-version".to_string(), "2024-01-01".to_string()));
    assert_eq!(v.len(), 3);
}
