//! The local gateway's own rules: model ids, upstream URLs, the gateway key,
//! error replies and the request bodies sent upstream.

use vstd::prelude::*;
use crate::json::{lemma_members_of, members_of, owned, JsonValue, Json};
use crate::text::{
    after_last, after_last_char, chars_eq_str, chars_of, decimal, decimal_chars, ends_with,
    extend_chars, has_infix, has_prefix, has_suffix, lower, lower_chars, starts_with, string_of,
    trim, trim_chars, trim_end_char, trim_end_matches_char, contains, slice_chars,
};
use vstd::utf8::encode_utf8;

verus! {

/// The ZCode endpoint that account-pool requests go to.
pub const ZCODE_MESSAGES_URL: &'static str = "https://zcode.z.ai/api/v1/zcode-plan/anthropic/v1/messages";

/// The provider id under which the gateway registers itself in ZCode's config.
pub const ZCODE_SWITCHER_PROVIDER_ID: &'static str = "custom:zcode-switcher-local-api";

/// The port reported while no gateway runs.
pub const DEFAULT_PROXY_PORT: u16 = 17860;

/// What the front end is told about the gateway.
#[derive(Debug)]
pub struct ProxyStatus {
    pub running: bool,
    pub port: u16,
    pub base_url: String,
}

/// `http://127.0.0.1:<port>`.
pub open spec fn local_origin(port: u16) -> Seq<char> {
    "http://127.0.0.1:"@ + decimal(port as nat)
}

/// The status of a gateway on `port`.
pub fn status_for(port: u16, running: bool) -> (r: ProxyStatus)
    ensures
        r.running == running,
        r.port == port,
        r.base_url@ == local_origin(port) + "/v1"@,
{
    let mut url = chars_of("http://127.0.0.1:");
    let digits = decimal_chars(port as u64);
    extend_chars(&mut url, digits.as_slice());
    let tail = chars_of("/v1");
    extend_chars(&mut url, tail.as_slice());
    ProxyStatus { running, port, base_url: string_of(url.as_slice()) }
}

/// The status reported by `proxy_status`: the running gateway's port, or the
/// default port when none runs.
pub fn current_status(running_port: Option<u16>) -> (r: ProxyStatus)
    ensures
        r.running == running_port is Some,
        r.port == match running_port { Some(p) => p, None => DEFAULT_PROXY_PORT },
        r.base_url@ == local_origin(r.port) + "/v1"@,
{
    match running_port {
        Some(p) => status_for(p, true),
        None => status_for(DEFAULT_PROXY_PORT, false),
    }
}

/// The status reported by `stop_proxy`: the port that was running, or 0.
pub fn stopped_status(running_port: Option<u16>) -> (r: ProxyStatus)
    ensures
        !r.running,
        r.port == match running_port { Some(p) => p, None => 0 },
        r.base_url@ == local_origin(r.port) + "/v1"@,
{
    match running_port {
        Some(p) => status_for(p, false),
        None => status_for(0, false),
    }
}

// ---------------------------------------------------------------------------
// Model ids
// ---------------------------------------------------------------------------

/// The last `/`-separated segment of a model id.
pub open spec fn model_id(model: Seq<char>) -> Seq<char> {
    after_last(model, '/')
}

/// The model name ZCode expects for a model id.
pub open spec fn zcode_model(model: Seq<char>) -> Seq<char> {
    let m = model_id(model);
    let l = lower(m);
    if l == "glm-5.3"@ {
        "GLM-5.3"@
    } else if l == "glm-5.3-flash"@ || l == "glm-5.3 flash"@ || l == "glm-5.3flash"@ {
        "GLM-5.3 Flash"@
    } else if l == "glm-5.2"@ {
        "GLM-5.2"@
    } else if l == "glm-5-turbo"@ || l == "glm-turbo"@ {
        "GLM-5-Turbo"@
    } else if l == "glm-5.1"@ {
        "GLM-5.1"@
    } else if l == "glm-4.7"@ {
        "GLM-4.7"@
    } else {
        m
    }
}

proof fn lemma_after_last_sep(a: Seq<char>, b: Seq<char>, c: char)
    ensures
        after_last(a + seq![c] + b, c) == after_last(b, c),
    decreases b.len(),
{
    let x = a + seq![c] + b;
    if b.len() == 0 {
        assert(x =~= a.push(c));
    } else {
        assert(x.last() == b.last());
        if b.last() != c {
            assert(x.drop_last() =~= a + seq![c] + b.drop_last());
            lemma_after_last_sep(a, b.drop_last(), c);
        }
    }
}

proof fn lemma_after_last_free(s: Seq<char>, c: char)
    ensures
        !after_last(s, c).contains(c),
        !s.contains(c) ==> after_last(s, c) == s,
    decreases s.len(),
{
    if s.len() > 0 && s.last() != c {
        lemma_after_last_free(s.drop_last(), c);
        let r = after_last(s.drop_last(), c);
        assert(!r.push(s.last()).contains(c)) by {
            if r.push(s.last()).contains(c) {
                let k = choose|k: int| 0 <= k < r.push(s.last()).len() && r.push(s.last())[k] == c;
                if k < r.len() {
                    assert(r.contains(c));
                }
            }
        }
        if !s.contains(c) {
            assert(!s.drop_last().contains(c)) by {
                if s.drop_last().contains(c) {
                    let k = choose|k: int| 0 <= k < s.drop_last().len() && s.drop_last()[k] == c;
                    assert(s[k] == c);
                }
            }
            assert(s.drop_last().push(s.last()) =~= s);
        }
    } else if s.len() > 0 {
        assert(s[s.len() - 1] == c);
        assert(s.contains(c));
    } else {
        assert(s =~= Seq::<char>::empty());
    }
}

/// The ZCode name of a model does not depend on the `provider/` prefix
/// before it.
pub proof fn law_zcode_model_ignores_prefix(prefix: Seq<char>, model: Seq<char>)
    ensures
        zcode_model(prefix + "/"@ + model) == zcode_model(model),
{
    reveal_strlit("/");
    assert("/"@ =~= seq!['/']);
    lemma_after_last_sep(prefix, model, '/');
}

/// Spelling a model the ZCode way twice spells it as once.
pub proof fn law_zcode_model_idempotent(model: Seq<char>)
    ensures
        zcode_model(zcode_model(model)) == zcode_model(model),
{
    let m = model_id(model);
    lemma_after_last_free(model, '/');
    lemma_after_last_free(m, '/');
    reveal_strlit("GLM-5.3");
    reveal_strlit("GLM-5.3 Flash");
    reveal_strlit("GLM-5.2");
    reveal_strlit("GLM-5-Turbo");
    reveal_strlit("GLM-5.1");
    reveal_strlit("GLM-4.7");
    reveal_strlit("glm-5.3");
    reveal_strlit("glm-5.3-flash");
    reveal_strlit("glm-5.3 flash");
    reveal_strlit("glm-5.3flash");
    reveal_strlit("glm-5.2");
    reveal_strlit("glm-5-turbo");
    reveal_strlit("glm-turbo");
    reveal_strlit("glm-5.1");
    reveal_strlit("glm-4.7");
    let r = zcode_model(model);
    if r != m {
        assert(!r.contains('/'));
        lemma_after_last_free(r, '/');
        assert(model_id(r) == r);
        assert(lower("GLM-5.3"@) =~= "glm-5.3"@);
        assert(lower("GLM-5.3 Flash"@) =~= "glm-5.3 flash"@);
        assert(lower("GLM-5.2"@) =~= "glm-5.2"@);
        assert(lower("GLM-5-Turbo"@) =~= "glm-5-turbo"@);
        assert(lower("GLM-5.1"@) =~= "glm-5.1"@);
        assert(lower("GLM-4.7"@) =~= "glm-4.7"@);
    } else {
        assert(model_id(m) == m);
    }
}

/// Drops any `provider/` prefix from a model id.
pub fn normalize_model_id(model: &str) -> (r: String)
    ensures
        r@ == model_id(model@),
{
    let cs = chars_of(model);
    let last = after_last_char(cs.as_slice(), '/');
    string_of(last.as_slice())
}

/// The ZCode spelling of a model id; unknown models are kept as they are.
pub fn normalize_zcode_model(model: &str) -> (r: String)
    ensures
        r@ == zcode_model(model@),
{
    let cs = chars_of(model);
    let m = after_last_char(cs.as_slice(), '/');
    let l = lower_chars(m.as_slice());
    let l = l.as_slice();
    if chars_eq_str(l, "glm-5.3") {
        owned("GLM-5.3")
    } else if chars_eq_str(l, "glm-5.3-flash") || chars_eq_str(l, "glm-5.3 flash") || chars_eq_str(
        l,
        "glm-5.3flash",
    ) {
        owned("GLM-5.3 Flash")
    } else if chars_eq_str(l, "glm-5.2") {
        owned("GLM-5.2")
    } else if chars_eq_str(l, "glm-5-turbo") || chars_eq_str(l, "glm-turbo") {
        owned("GLM-5-Turbo")
    } else if chars_eq_str(l, "glm-5.1") {
        owned("GLM-5.1")
    } else if chars_eq_str(l, "glm-4.7") {
        owned("GLM-4.7")
    } else {
        string_of(m.as_slice())
    }
}

// ---------------------------------------------------------------------------
// Upstream URLs
// ---------------------------------------------------------------------------

/// `base` with trailing slashes removed and `suffix` appended unless it is
/// already there.
pub open spec fn endpoint_url(base: Seq<char>, suffix: Seq<char>) -> Seq<char> {
    let b = trim_end_char(base, '/');
    if has_suffix(b, suffix) {
        b
    } else {
        b + suffix
    }
}

fn endpoint(base_url: &str, suffix: &str) -> (r: String)
    ensures
        r@ == endpoint_url(base_url@, suffix@),
{
    let cs = chars_of(base_url);
    let mut b = trim_end_matches_char(cs.as_slice(), '/');
    let sfx = chars_of(suffix);
    if !ends_with(b.as_slice(), sfx.as_slice()) {
        extend_chars(&mut b, sfx.as_slice());
    }
    string_of(b.as_slice())
}

/// The Anthropic messages endpoint under a provider's base URL.
pub fn messages_url(base_url: &str) -> (r: String)
    ensures
        r@ == endpoint_url(base_url@, "/messages"@),
{
    endpoint(base_url, "/messages")
}

/// The OpenAI chat-completions endpoint under a provider's base URL.
pub fn openai_chat_url(base_url: &str) -> (r: String)
    ensures
        r@ == endpoint_url(base_url@, "/chat/completions"@),
{
    endpoint(base_url, "/chat/completions")
}


// ---------------------------------------------------------------------------
// Gateway key and error replies
// ---------------------------------------------------------------------------

/// A JSON error reply. With `event_stream` set it is sent as status 200 and
/// a `text/event-stream` body `event: error\ndata: <payload>\n\n`.
#[derive(Debug)]
pub struct ErrorReply {
    pub status: u16,
    pub event_stream: bool,
    pub payload: JsonValue,
}

/// `{"error": {"type": <t>, "message": <m>}}`.
pub open spec fn error_json(t: Seq<char>, m: Seq<char>) -> Json {
    Json::Obj(seq![("error"@, Json::Obj(seq![("type"@, Json::Str(t)), ("message"@, Json::Str(m))]))])
}

/// The error document for a type and a message.
pub fn error_payload(t: &str, m: &str) -> (r: JsonValue)
    ensures
        r.model() == error_json(t@, m@),
{
    let inner = vec![(owned("type"), JsonValue::Str(owned(t))), (owned("message"), JsonValue::Str(owned(m)))];
    proof {
        lemma_members_of(inner@);
        assert(members_of(inner@) =~= seq![("type"@, Json::Str(t@)), ("message"@, Json::Str(m@))]);
    }
    let inner = JsonValue::Object(inner);
    let outer = vec![(owned("error"), inner)];
    proof {
        lemma_members_of(outer@);
        assert(members_of(outer@) =~= seq![("error"@, inner.model())]);
    }
    JsonValue::Object(outer)
}

/// An error reply for the gateway's error kinds; a streaming request gets it
/// as a server-sent event with status 200.
pub fn provider_error_response(stream: bool, status: u16, error_type: &str, message: &str) -> (r: ErrorReply)
    ensures
        r.status == (if stream { 200 } else { status }),
        r.event_stream == stream,
        r.payload.model() == error_json(error_type@, message@),
{
    ErrorReply {
        status: if stream { 200 } else { status },
        event_stream: stream,
        payload: error_payload(error_type, message),
    }
}

/// The reply to a request without a valid gateway key.
pub fn unauthorized() -> (r: ErrorReply)
    ensures
        r.status == 401,
        !r.event_stream,
        r.payload.model() == error_json("authentication_error"@, "Missing or invalid local gateway key"@),
{
    ErrorReply {
        status: 401,
        event_stream: false,
        payload: error_payload("authentication_error", "Missing or invalid local gateway key"),
    }
}

/// The reply to a request whose body is not acceptable.
pub fn invalid_request(message: &str) -> (r: ErrorReply)
    ensures
        r.status == 400,
        !r.event_stream,
        r.payload.model() == error_json("invalid_request_error"@, message@),
{
    ErrorReply { status: 400, event_stream: false, payload: error_payload("invalid_request_error", message) }
}

/// The text of an optional header.
pub open spec fn header_text(h: Option<&str>) -> Option<Seq<char>> {
    match h {
        Some(s) => Some(s@),
        None => None,
    }
}

/// The gateway key is presented as `Authorization: Bearer <key>` or as
/// `x-api-key: <key>`.
pub open spec fn key_accepted(authorization: Option<Seq<char>>, x_api_key: Option<Seq<char>>, key: Seq<char>) -> bool {
    ||| (authorization matches Some(a) && has_prefix(a, "Bearer "@) && a.skip(7) == key)
    ||| x_api_key == Some(key)
}

/// The gateway key is accepted exactly when the `Authorization` header is
/// `Bearer ` followed by the key, or the `x-api-key` header is the key; each
/// header alone suffices, whatever the other one holds.
pub proof fn law_gateway_key(authorization: Option<Seq<char>>, x_api_key: Option<Seq<char>>, key: Seq<char>)
    ensures
        authorization == Some("Bearer "@ + key) ==> key_accepted(authorization, x_api_key, key),
        x_api_key == Some(key) ==> key_accepted(authorization, x_api_key, key),
        key_accepted(authorization, x_api_key, key) ==> authorization == Some("Bearer "@ + key) || x_api_key
            == Some(key),
{
    reveal_strlit("Bearer ");
    if let Some(a) = authorization {
        let b = "Bearer "@;
        if a == b + key {
            assert(a.take(7) =~= b);
            assert(a.skip(7) =~= key);
        }
        if has_prefix(a, b) && a.skip(7) == key {
            assert(a =~= a.take(7) + a.skip(7));
        }
    }
}

/// Checks the gateway key of a request, given the text of its
/// `authorization` and `x-api-key` headers.
pub fn check_gateway_auth(authorization: Option<&str>, x_api_key: Option<&str>, gateway_key: &str) -> (r: Result<(), ErrorReply>)
    ensures
        r is Ok <==> key_accepted(header_text(authorization), header_text(x_api_key), gateway_key@),
        r matches Err(e) ==> e.status == 401 && !e.event_stream
            && e.payload.model() == error_json("authentication_error"@, "Missing or invalid local gateway key"@),
{
    let key = chars_of(gateway_key);
    let bearer_ok = match authorization {
        Some(a) => {
            let ac = chars_of(a);
            let prefix = chars_of("Bearer ");
            proof {
                assert("Bearer "@.len() == 7) by {
                    reveal_strlit("Bearer ");
                }
            }
            if starts_with(ac.as_slice(), prefix.as_slice()) {
                let rest = slice_chars(ac.as_slice(), 7, ac.len());
                assert(rest@ == ac@.skip(7));
                crate::text::same_chars(rest.as_slice(), key.as_slice())
            } else {
                false
            }
        },
        None => false,
    };
    let x_key_ok = match x_api_key {
        Some(x) => crate::json::str_eq(x, gateway_key),
        None => false,
    };
    if bearer_ok || x_key_ok {
        Ok(())
    } else {
        Err(unauthorized())
    }
}

// ---------------------------------------------------------------------------
// Captcha rejections
// ---------------------------------------------------------------------------

/// What `String::from_utf8_lossy` gives for `bytes`: the decoded text, with
/// every invalid sequence replaced by U+FFFD.
pub uninterp spec fn lossy_utf8(bytes: Seq<u8>) -> Seq<char>;

/// `String::from_utf8_lossy`: the result is named `lossy_utf8`.
#[verifier::external_body]
fn decode_lossy(bytes: &[u8]) -> (r: String)
    ensures
        r@ == lossy_utf8(bytes@),
{
    String::from_utf8_lossy(bytes).into_owned()
}

/// A reply whose body reads as `text` asks for a captcha: status 403 and a
/// text that, lower-cased in ASCII, mentions one.
pub open spec fn captcha_text(status: u16, text: Seq<char>) -> bool {
    let t = lower(text);
    &&& status == 403
    &&& {
        ||| has_infix(t, "captcha"@)
        ||| has_infix(t, "verify"@)
        ||| has_infix(t, "3007"@)
        ||| has_infix(t, "验证码"@)
        ||| has_infix(t, "校验"@)
    }
}

/// ZCode asks for a captcha: status 403 and a body that mentions one.
pub open spec fn captcha_rejection(status: u16, body: Seq<u8>) -> bool {
    captcha_text(status, lossy_utf8(body))
}

/// Whether a reply with this status and this decoded body text is a
/// captcha rejection.
pub fn is_captcha_text(status: u16, text: &str) -> (r: bool)
    ensures
        r == captcha_text(status, text@),
{
    if status != 403 {
        return false;
    }
    let cs = chars_of(text);
    let t = lower_chars(cs.as_slice());
    let t = t.as_slice();
    contains(t, chars_of("captcha").as_slice()) || contains(t, chars_of("verify").as_slice()) || contains(
        t,
        chars_of("3007").as_slice(),
    ) || contains(t, chars_of("验证码").as_slice()) || contains(t, chars_of("校验").as_slice())
}

/// Whether an upstream reply is a captcha rejection: its body decoded as
/// UTF-8 (invalid bytes replaced), then `is_captcha_text`.
pub fn is_captcha_response(status: u16, body: &[u8]) -> (r: bool)
    ensures
        r == captcha_rejection(status, body@),
{
    if status != 403 {
        return false;
    }
    let text = decode_lossy(body);
    is_captcha_text(status, text.as_str())
}

// ---------------------------------------------------------------------------
// Starting the gateway
// ---------------------------------------------------------------------------

/// The error for a gateway key shorter than twelve bytes.
pub open spec fn short_key_error() -> Seq<char> {
    "本地网关密钥至少需要 12 个字符"@
}

/// The error for port 0.
pub open spec fn bad_port_error() -> Seq<char> {
    "端口号无效"@
}

/// Checks a start request: the trimmed key must be at least twelve bytes of
/// UTF-8 and the port non-zero. On success gives the trimmed key.
pub fn validate_start_request(port: u16, gateway_key: &str) -> (r: Result<String, String>)
    ensures
        encode_utf8(trim(gateway_key@)).len() < 12 ==> (r matches Err(e) && e@ == short_key_error()),
        encode_utf8(trim(gateway_key@)).len() >= 12 && port == 0 ==> (r matches Err(e) && e@
            == bad_port_error()),
        encode_utf8(trim(gateway_key@)).len() >= 12 && port != 0 ==> (r matches Ok(k) && k@ == trim(
            gateway_key@,
        )),
{
    let cs = chars_of(gateway_key);
    let t = trim_chars(cs.as_slice());
    let key = string_of(t.as_slice());
    let byte_len = key.as_str().as_bytes().len();
    if byte_len < 12 {
        return Err(owned("本地网关密钥至少需要 12 个字符"));
    }
    if port == 0 {
        return Err(owned("端口号无效"));
    }
    Ok(key)
}

} // verus!
