use zcode_switcher::json::JsonValue;
use zcode_switcher::quota::{
    attempt_step, balance_failure, balance_label, balance_period, balance_show_name, balance_url,
    best_plan_index, distinct_versions, is_balance_log_line, log_timestamp_text,
    logged_balance_json, logged_line_naive_time, missing_data_error, newest_first, parse_u64, require_balances,
    retries_exhausted, retry_after_secs, string_field, usable_logged_reply, AttemptResult,
    AttemptStep, LOG_TIME_FORMAT, MAX_ATTEMPTS, balance_fetch_start, balance_fetch_step,
    balance_log_candidates, first_accepted_line, BalanceAction, BalanceEvent,
};
use chrono::TimeZone;
use zcode_switcher::text::split_lines;

fn s(x: &str) -> JsonValue {
    JsonValue::Str(x.to_string())
}

fn obj(pairs: Vec<(&str, JsonValue)>) -> JsonValue {
    JsonValue::Object(pairs.into_iter().map(|(k, v)| (k.to_string(), v)).collect())
}

fn chars(t: &str) -> Vec<char> {
    t.chars().collect()
}

const LOGGED_LINE: &str = r#"[2026-07-07 08:52:01.399] [info] [usage-stats] billing/balance 请求完成 {"balanceCount":2,"payload":{"code":0,"msg":"","data":{"plans":[{"name":"ZCode Start Plan","priority":100,"status":"active"}],"balances":[{"show_name":"GLM-5.2","total_units":3000000,"used_units":0,"remaining_units":3000000}]}}}"#;

#[test]
fn string_fields_are_trimmed_and_non_blank() {
    let v = obj(vec![("name", s("  GLM  ")), ("blank", s("   ")), ("n", JsonValue::Number("1".into()))]);
    assert_eq!(string_field(&v, "name").as_deref(), Some("GLM"));
    assert_eq!(string_field(&v, "blank"), None);
    assert_eq!(string_field(&v, "n"), None);
    assert_eq!(string_field(&v, "missing"), None);
    assert_eq!(string_field(&s("x"), "name"), None);
}

#[test]
fn balance_labels_fall_back() {
    let named = obj(vec![("name", s(" Daily ")), ("entitlement_id", s("ent_1"))]);
    assert_eq!(balance_show_name(&named, "GLM-5.3"), "GLM-5.3");
    assert_eq!(balance_show_name(&named, "  "), "Daily");
    let ent = obj(vec![("name", s("")), ("entitlement_id", s("ent_1"))]);
    assert_eq!(balance_show_name(&ent, ""), "ent_1");
    assert_eq!(balance_show_name(&obj(vec![]), ""), "额度");
}

#[test]
fn balance_period_falls_back() {
    let v = obj(vec![("period", s(" weekly "))]);
    assert_eq!(balance_period(&v, Some("daily".into())).as_deref(), Some("daily"));
    assert_eq!(balance_period(&v, None).as_deref(), Some("weekly"));
    assert_eq!(balance_period(&obj(vec![]), None), None);
}

#[test]
fn best_plan_prefers_priority_then_the_last() {
    assert_eq!(best_plan_index(&vec![]), None);
    assert_eq!(best_plan_index(&vec![Some(100)]), Some(0));
    assert_eq!(best_plan_index(&vec![Some(100), Some(200), Some(50)]), Some(1));
    assert_eq!(best_plan_index(&vec![Some(5), Some(5)]), Some(1));
    assert_eq!(best_plan_index(&vec![Some(-1), None]), Some(1));
    assert_eq!(best_plan_index(&vec![None, Some(0)]), Some(1));
    assert_eq!(best_plan_index(&vec![Some(0), Some(-3)]), Some(0));
}

#[test]
fn logged_balance_lines() {
    assert!(is_balance_log_line(LOGGED_LINE));
    assert!(!is_balance_log_line("[2026-07-07] [info] something else 请求完成 {}"));
    let json = logged_balance_json(LOGGED_LINE).unwrap();
    assert!(json.starts_with(r#"{"balanceCount":2,"payload":{"code":0"#));
    assert!(json.ends_with("}}}"));
    assert_eq!(logged_balance_json("billing/balance 请求完成"), None);
    assert_eq!(logged_balance_json("x billing/balance 请求完成   {\"a\":1}  ").as_deref(), Some("{\"a\":1}"));
    assert_eq!(logged_balance_json("请求完成 {} but no marker"), None);
}

#[test]
fn log_time_stamps() {
    assert_eq!(log_timestamp_text(LOGGED_LINE).as_deref(), Some("2026-07-07 08:52:01.399"));
    assert_eq!(log_timestamp_text("没有时间戳前缀的日志行"), None);
    assert_eq!(log_timestamp_text("[unterminated"), None);
    assert_eq!(log_timestamp_text("[not-a-date] [info]").as_deref(), Some("not-a-date"));
    assert_eq!(LOG_TIME_FORMAT, "%Y-%m-%d %H:%M:%S%.3f");
}

#[test]
fn log_times_are_read_with_chrono() {
    let t = logged_line_naive_time(LOGGED_LINE).expect("a time stamp");
    assert_eq!(t.format("%Y-%m-%d %H:%M:%S%.3f").to_string(), "2026-07-07 08:52:01.399");
    assert!(logged_line_naive_time("没有时间戳前缀的日志行").is_none());
    assert!(logged_line_naive_time("[not-a-date] [info] billing/balance 请求完成 {}").is_none());
    let wrapped = "[2026-09-02 21:28:20.763] [info] [pid:28300] [main] [host-log] (local-1) [host] [2026-09-02 21:28:20.763] x";
    assert!(logged_line_naive_time(wrapped).is_some());
}

#[test]
fn text_lines_split_like_std() {
    for t in ["", "a", "a\n", "a\r\nb", "a\n\nb\n", "\n", "x\r", "l1\rl2\n"] {
        let got: Vec<String> = split_lines(&chars(t)).iter().map(|l| l.iter().collect()).collect();
        let want: Vec<String> = t.lines().map(|l| l.to_string()).collect();
        assert_eq!(got, want, "lines of {:?}", t);
    }
}

#[test]
fn unsigned_parsing_like_std() {
    for t in ["0", "42", "+7", "", "+", "-1", "12a", "18446744073709551615", "18446744073709551616", "007", " 1"] {
        assert_eq!(parse_u64(&chars(t)), t.parse::<u64>().ok(), "parse of {:?}", t);
    }
}

#[test]
fn retry_waits() {
    assert_eq!(retry_after_secs(None), 2);
    assert_eq!(retry_after_secs(Some(" 5 ")), 5);
    assert_eq!(retry_after_secs(Some("0")), 1);
    assert_eq!(retry_after_secs(Some("120")), 10);
    assert_eq!(retry_after_secs(Some("Wed, 21 Oct 2015 07:28:00 GMT")), 2);
}

#[test]
fn attempt_steps() {
    assert_eq!(MAX_ATTEMPTS, 2);
    let label = "billing/balance?app_version=3.2.5";
    let throttled = AttemptResult::Response { status: 429, retry_after: Some("3".into()), status_text: "429 Too Many Requests".into() };
    match attempt_step(0, label, &throttled) {
        AttemptStep::Retry { wait_secs, last_error } => {
            assert_eq!(wait_secs, Some(3));
            assert_eq!(last_error, "billing/balance?app_version=3.2.5 限流重试后仍未恢复");
        },
        _ => panic!("expected a retry"),
    }
    match attempt_step(1, label, &throttled) {
        AttemptStep::Reject(e) => assert_eq!(e, "billing/balance?app_version=3.2.5 状态码 429 Too Many Requests"),
        _ => panic!("expected an error"),
    }
    let ok = AttemptResult::Response { status: 204, retry_after: None, status_text: "204 No Content".into() };
    assert!(matches!(attempt_step(0, label, &ok), AttemptStep::Accept));
    let timeout = AttemptResult::Failure { timeout_like: true, message: "timed out".into() };
    match attempt_step(0, label, &timeout) {
        AttemptStep::Retry { wait_secs, last_error } => {
            assert_eq!(wait_secs, None);
            assert_eq!(last_error, "请求超时");
        },
        _ => panic!("expected a retry"),
    }
    match attempt_step(1, label, &timeout) {
        AttemptStep::Reject(e) => assert_eq!(e, "请求超时"),
        _ => panic!("expected an error"),
    }
    let broken = AttemptResult::Failure { timeout_like: false, message: "dns".into() };
    match attempt_step(0, label, &broken) {
        AttemptStep::Reject(e) => assert_eq!(e, "请求 billing/balance?app_version=3.2.5 失败：dns"),
        _ => panic!("expected an error"),
    }
    assert_eq!(retries_exhausted(Some("请求超时".into()), label), "请求超时");
    assert_eq!(retries_exhausted(None, "x"), "x 重试后仍未恢复");
}

#[test]
fn billing_endpoint_texts() {
    let vs = distinct_versions(&vec!["3.2.5".to_string(), "3.10.2".to_string(), "3.2.5".to_string()]);
    assert_eq!(vs, vec!["3.2.5".to_string(), "3.10.2".to_string()]);
    assert_eq!(
        balance_url("3.2.5"),
        "https://zcode.z.ai/api/v1/zcode-plan/billing/balance?app_version=3.2.5"
    );
    assert_eq!(balance_label("3.2.5"), "billing/balance?app_version=3.2.5");
    assert_eq!(missing_data_error("l", 1001), "l 返回 code=1001");
    assert_eq!(missing_data_error("l", -7), "l 返回 code=-7");
    assert_eq!(missing_data_error("l", i64::MIN), "l 返回 code=-9223372036854775808");
    assert_eq!(balance_failure(Some("请求超时".into())), "额度明细获取失败：请求超时");
    assert_eq!(balance_failure(None), "额度明细获取失败：未能请求 billing/balance");
}

#[test]
fn quota_needs_balances() {
    assert!(require_balances(2).is_ok());
    assert_eq!(require_balances(0).unwrap_err(), "额度接口未返回可显示的模型额度明细");
    assert!(usable_logged_reply(0, Some(2)));
    assert!(!usable_logged_reply(0, Some(0)));
    assert!(!usable_logged_reply(1, Some(2)));
    assert!(!usable_logged_reply(0, None));
}

#[test]
fn newest_log_files_first() {
    assert_eq!(newest_first(&vec![10, 30, 20, 30, 5, 40], 5), vec![5, 1, 3, 2, 0]);
    assert_eq!(newest_first(&vec![7, 7, 7], 5), vec![0, 1, 2]);
    assert_eq!(newest_first(&vec![1, 2, 3], 0), Vec::<usize>::new());
    assert_eq!(newest_first(&vec![], 5), Vec::<usize>::new());
    // the same order as a stable sort by newest time, cut to the limit
    let stamps: Vec<u128> = vec![3, 9, 1, 9, 4, 4, 0, 12];
    let mut idx: Vec<usize> = (0..stamps.len()).collect();
    idx.sort_by(|a, b| stamps[*b].cmp(&stamps[*a]));
    idx.truncate(5);
    assert_eq!(newest_first(&stamps, 5), idx);
}

#[test]
fn logged_line_time_parses_prefix_timestamp() {
    let line = r#"[2026-07-07 08:52:01.399] [info] [usage-stats] billing/balance 请求完成 {}"#;
    let naive = logged_line_naive_time(line).expect("应能解析日志行时间戳");
    let local = chrono::Local.from_local_datetime(&naive).single().expect("应能解析日志行时间戳");
    let t: std::time::SystemTime = local.with_timezone(&chrono::Utc).into();
    let secs = t
        .duration_since(std::time::UNIX_EPOCH)
        .expect("时间戳应晚于 Unix 纪元")
        .as_secs();
    assert!(secs > 1_780_000_000 && secs < 1_790_000_000, "secs={secs}");
}

#[test]
fn logged_line_time_rejects_unparsable_lines() {
    assert!(logged_line_naive_time("没有时间戳前缀的日志行").is_none());
    assert!(logged_line_naive_time("[not-a-date] [info] billing/balance 请求完成 {}").is_none());
}

#[test]
fn balance_fetch_asks_each_version_once() {
    let (mut f, a) = balance_fetch_start(&vec!["3.2.5".to_string(), "3.2.5".to_string(), "3.10.2".to_string()]);
    assert_eq!(f.versions, vec!["3.2.5".to_string(), "3.10.2".to_string()]);
    match a {
        BalanceAction::Request { url, label } => {
            assert_eq!(url, "https://zcode.z.ai/api/v1/zcode-plan/billing/balance?app_version=3.2.5");
            assert_eq!(label, "billing/balance?app_version=3.2.5");
        },
        _ => panic!("expected a request"),
    }
    let a = balance_fetch_step(&mut f, BalanceEvent::RequestFailed("请求超时".into()));
    match a {
        BalanceAction::Request { label, .. } => assert_eq!(label, "billing/balance?app_version=3.10.2"),
        _ => panic!("expected a request"),
    }
    let a = balance_fetch_step(&mut f, BalanceEvent::Reply { code: 1001, has_data: false });
    match a {
        BalanceAction::Fail(e) => {
            assert_eq!(e, "额度明细获取失败：billing/balance?app_version=3.10.2 返回 code=1001")
        },
        _ => panic!("expected a failure"),
    }
}

#[test]
fn balance_fetch_uses_data_and_stops_on_unreadable_reply() {
    let (mut f, _) = balance_fetch_start(&vec!["1".to_string()]);
    assert!(matches!(balance_fetch_step(&mut f, BalanceEvent::Reply { code: 0, has_data: true }), BalanceAction::UseReply));
    let (mut f, _) = balance_fetch_start(&vec!["1".to_string(), "2".to_string()]);
    match balance_fetch_step(&mut f, BalanceEvent::Unreadable("eof".into())) {
        BalanceAction::Fail(e) => assert_eq!(e, "解析失败：eof"),
        _ => panic!("expected a failure"),
    }
    let (f, a) = balance_fetch_start(&vec![]);
    assert!(f.versions.is_empty());
    match a {
        BalanceAction::Fail(e) => assert_eq!(e, "额度明细获取失败：未能请求 billing/balance"),
        _ => panic!("expected a failure"),
    }
}

#[test]
fn log_scan_takes_the_latest_usable_line() {
    let text = format!("{}\nnoise\r\n{}\n[2026-07-08 00:00:00.000] other billing/balance 请求完成 {{}}\n", LOGGED_LINE, "x");
    let c = balance_log_candidates(&text);
    assert_eq!(c.len(), 2);
    assert!(c[0].starts_with("[2026-07-08"));
    assert_eq!(c[1], LOGGED_LINE);
    let facts = vec![(Some(50u128), false), (Some(10), true), (Some(70), true), (None, true)];
    assert_eq!(first_accepted_line(&facts, 40), Some(2));
    assert_eq!(first_accepted_line(&facts, 5), Some(1));
    assert_eq!(first_accepted_line(&facts, 80), None);
    assert_eq!(first_accepted_line(&vec![], 0), None);
}
