use zcode_switcher::dispatch::{start, step, Action, Event, Phase, MAX_ACCOUNT_ATTEMPTS};
use zcode_switcher::json::to_json_text;
use zcode_switcher::upstream::{ApiFormat, CustomProvider, Upstream};

fn account(name: &str) -> Upstream {
    Upstream::ZcodeJwt { name: name.to_string(), token: format!("{}-token", name) }
}

fn provider(id: &str) -> Upstream {
    Upstream::CustomProvider {
        provider: CustomProvider {
            id: id.to_string(),
            name: id.to_string(),
            api_format: ApiFormat::Anthropic,
            base_url: "https://p".to_string(),
            models: vec![],
        },
        api_key: "k".to_string(),
        url: "https://p/messages".to_string(),
    }
}

fn captcha_body() -> Vec<u8> {
    br#"{"code":3007,"msg":"captcha"}"#.to_vec()
}

#[test]
fn account_success_is_relayed() {
    let us = vec![account("a")];
    let (mut d, a) = start(false, &us);
    assert!(matches!(a, Action::FetchCaptchaParam { upstream: 0 }));
    let a = step(&mut d, &us, Event::CaptchaParam(Ok("p1".into())));
    match a {
        Action::SendToAccount { upstream, captcha_param } => {
            assert_eq!(upstream, 0);
            assert_eq!(captcha_param, "p1");
        },
        _ => panic!("expected a send"),
    }
    let a = step(&mut d, &us, Event::AccountReply(Ok((200, b"{}".to_vec()))));
    assert!(matches!(a, Action::RelayReply { streaming: false }));
    assert_eq!(d.phase, Phase::Done);
}

#[test]
fn captcha_rejections_retry_then_move_on() {
    let us = vec![account("a"), provider("p")];
    let (mut d, _) = start(false, &us);
    for round in 0..MAX_ACCOUNT_ATTEMPTS {
        let a = step(&mut d, &us, Event::CaptchaParam(Ok(format!("p{}", round))));
        assert!(matches!(a, Action::SendToAccount { upstream: 0, .. }));
        let a = step(&mut d, &us, Event::AccountReply(Ok((403, captcha_body()))));
        assert!(matches!(a, Action::InvalidateCaptchaParam));
        let a = step(&mut d, &us, Event::CaptchaInvalidated);
        if round + 1 < MAX_ACCOUNT_ATTEMPTS {
            assert!(matches!(a, Action::FetchCaptchaParam { upstream: 0 }));
        } else {
            assert!(matches!(a, Action::SendToProvider { upstream: 1 }));
        }
    }
    assert_eq!(d.captcha_count, 3);
    let a = step(&mut d, &us, Event::ProviderStatus(Ok(200)));
    assert!(matches!(a, Action::ReadProviderBody));
    let a = step(&mut d, &us, Event::ProviderBody(Ok(())));
    assert!(matches!(a, Action::RelayReply { streaming: false }));
}

#[test]
fn failed_parameter_request_ends_in_captcha_error() {
    let us = vec![account("a")];
    let (mut d, _) = start(false, &us);
    let a = step(&mut d, &us, Event::CaptchaParam(Err("timeout".into())));
    match a {
        Action::Fail(e) => {
            assert_eq!(e.status, 403);
            assert!(!e.event_stream);
            assert_eq!(
                to_json_text(&e.payload),
                r#"{"error":{"type":"authentication_error","message":"ZCode 账号池触发验证码校验，最后一次求参失败：timeout。请稍后重试，或添加外部 API Key 上游作为兜底。"}}"#
            );
        },
        _ => panic!("expected a failure"),
    }
}

#[test]
fn rejected_without_parameter_error_streams_captcha_error() {
    let us = vec![account("a")];
    let (mut d, _) = start(true, &us);
    for _ in 0..MAX_ACCOUNT_ATTEMPTS {
        step(&mut d, &us, Event::CaptchaParam(Ok("p".into())));
        let a = step(&mut d, &us, Event::AccountReply(Ok((403, captcha_body()))));
        assert!(matches!(a, Action::InvalidateCaptchaParam));
        step(&mut d, &us, Event::CaptchaInvalidated);
    }
    assert_eq!(d.phase, Phase::Done);
    let (mut d2, _) = start(true, &us);
    step(&mut d2, &us, Event::CaptchaParam(Ok("p".into())));
    step(&mut d2, &us, Event::AccountReply(Ok((403, captcha_body()))));
    step(&mut d2, &us, Event::CaptchaInvalidated);
    step(&mut d2, &us, Event::CaptchaParam(Ok("p".into())));
    step(&mut d2, &us, Event::AccountReply(Ok((403, captcha_body()))));
    step(&mut d2, &us, Event::CaptchaInvalidated);
    step(&mut d2, &us, Event::CaptchaParam(Ok("p".into())));
    step(&mut d2, &us, Event::AccountReply(Ok((403, captcha_body()))));
    let a = step(&mut d2, &us, Event::CaptchaInvalidated);
    match a {
        Action::Fail(e) => {
            assert_eq!(e.status, 200);
            assert!(e.event_stream);
            assert_eq!(
                to_json_text(&e.payload),
                r#"{"error":{"type":"authentication_error","message":"ZCode 账号池触发验证码校验，无痕验证参数已发送但上游仍拒绝。请稍后重试，或添加外部 API Key 上游作为兜底。"}}"#
            );
        },
        _ => panic!("expected a failure"),
    }
}

#[test]
fn streaming_account_reply_other_than_403_is_relayed() {
    let us = vec![account("a")];
    let (mut d, _) = start(true, &us);
    step(&mut d, &us, Event::CaptchaParam(Ok("p".into())));
    let a = step(&mut d, &us, Event::AccountReply(Ok((500, b"boom".to_vec()))));
    assert!(matches!(a, Action::RelayReply { streaming: false }));
}

#[test]
fn non_captcha_403_is_relayed() {
    let us = vec![account("a")];
    let (mut d, _) = start(false, &us);
    step(&mut d, &us, Event::CaptchaParam(Ok("p".into())));
    let a = step(&mut d, &us, Event::AccountReply(Ok((403, b"forbidden".to_vec()))));
    assert!(matches!(a, Action::RelayReply { streaming: false }));
}

#[test]
fn provider_failures_fall_through_to_bad_gateway() {
    let us = vec![provider("p"), account("a")];
    let (mut d, a) = start(false, &us);
    assert!(matches!(a, Action::SendToProvider { upstream: 0 }));
    let a = step(&mut d, &us, Event::ProviderStatus(Err("connect refused".into())));
    assert!(matches!(a, Action::FetchCaptchaParam { upstream: 1 }));
    step(&mut d, &us, Event::CaptchaParam(Ok("p".into())));
    let a = step(&mut d, &us, Event::AccountReply(Err("reset".into())));
    match a {
        Action::Fail(e) => {
            assert_eq!(e.status, 502);
            assert_eq!(
                to_json_text(&e.payload),
                r#"{"error":{"type":"provider_error","message":"reset"}}"#
            );
        },
        _ => panic!("expected a failure"),
    }
}

#[test]
fn streaming_provider_is_relayed_as_it_arrives() {
    let us = vec![provider("p")];
    let (mut d, _) = start(true, &us);
    let a = step(&mut d, &us, Event::ProviderStatus(Ok(200)));
    assert!(matches!(a, Action::RelayReply { streaming: true }));
    let (mut d, _) = start(true, &us);
    let a = step(&mut d, &us, Event::ProviderStatus(Ok(403)));
    assert!(matches!(a, Action::ReadProviderBody));
    let a = step(&mut d, &us, Event::ProviderBody(Err("eof".into())));
    match a {
        Action::Fail(e) => {
            assert_eq!(e.status, 502);
            assert!(!e.event_stream);
        },
        _ => panic!("expected a failure"),
    }
}

#[test]
fn no_upstreams_fail_at_once() {
    let us: Vec<Upstream> = vec![];
    let (d, a) = start(false, &us);
    assert_eq!(d.phase, Phase::Done);
    match a {
        Action::Fail(e) => {
            assert_eq!(e.status, 502);
            assert_eq!(
                to_json_text(&e.payload),
                r#"{"error":{"type":"provider_error","message":"No available upstream provider"}}"#
            );
        },
        _ => panic!("expected a failure"),
    }
}
