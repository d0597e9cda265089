//! Reloading ZCode's pages over the Chrome DevTools Protocol after an
//! account switch: which targets are reloaded, the reload command, how its
//! reply is read, and what is reported. The HTTP and WebSocket traffic is
//! the caller's.

use vstd::prelude::*;
use crate::json::{
    as_text, field, json_text, lemma_members_of, members_of, owned, to_json_text, Json, JsonValue,
};
use crate::text::{chars_of, extend_chars, has_prefix, join, join_chars, starts_with, string_of};

verus! {

/// The DevTools port ZCode opens when started with the flag.
pub const CDP_PORT: u16 = 9229;

/// The `Runtime.evaluate` command that reloads a page.
pub open spec fn reload_command() -> Json {
    Json::Obj(seq![
        ("id"@, Json::Num("1"@)),
        ("method"@, Json::Str("Runtime.evaluate"@)),
        ("params"@, Json::Obj(seq![
            ("expression"@, Json::Str("location.reload()"@)),
            ("userGesture"@, Json::Bool(true)),
            ("awaitPromise"@, Json::Bool(false)),
            ("returnByValue"@, Json::Bool(false)),
        ])),
    ])
}

/// The command that reloads a page.
pub fn reload_eval_request() -> (r: JsonValue)
    ensures
        r.model() == reload_command(),
{
    let params = vec![
        (owned("expression"), JsonValue::Str(owned("location.reload()"))),
        (owned("userGesture"), JsonValue::Bool(true)),
        (owned("awaitPromise"), JsonValue::Bool(false)),
        (owned("returnByValue"), JsonValue::Bool(false)),
    ];
    proof {
        lemma_members_of(params@);
        assert(members_of(params@) =~= seq![
            ("expression"@, Json::Str("location.reload()"@)),
            ("userGesture"@, Json::Bool(true)),
            ("awaitPromise"@, Json::Bool(false)),
            ("returnByValue"@, Json::Bool(false)),
        ]);
    }
    let params = JsonValue::Object(params);
    let ghost pm = params.model();
    let cmd = vec![
        (owned("id"), JsonValue::Number(owned("1"))),
        (owned("method"), JsonValue::Str(owned("Runtime.evaluate"))),
        (owned("params"), params),
    ];
    proof {
        lemma_members_of(cmd@);
        assert(members_of(cmd@) =~= seq![
            ("id"@, Json::Num("1"@)),
            ("method"@, Json::Str("Runtime.evaluate"@)),
            ("params"@, pm),
        ]);
    }
    JsonValue::Object(cmd)
}

/// A target is a real page: type `page`, not a DevTools or extension page.
pub open spec fn is_reloadable(t: Json) -> bool {
    let url = match as_text(field(t, "url"@)) {
        Some(u) => u,
        None => Seq::empty(),
    };
    &&& as_text(field(t, "type"@)) == Some("page"@)
    &&& !has_prefix(url, "devtools://"@)
    &&& !has_prefix(url, "chrome-extension://"@)
}

/// The debugger URLs of the pages to reload, in target order.
pub open spec fn page_urls(ts: Seq<Json>) -> Seq<Seq<char>>
    decreases ts.len(),
{
    if ts.len() == 0 {
        Seq::empty()
    } else {
        page_urls(ts.drop_last()) + if is_reloadable(ts.last()) {
            match as_text(field(ts.last(), "webSocketDebuggerUrl"@)) {
                Some(u) => seq![u],
                None => Seq::<Seq<char>>::empty(),
            }
        } else {
            Seq::<Seq<char>>::empty()
        }
    }
}

fn reloadable(t: &JsonValue) -> (r: bool)
    ensures
        r == is_reloadable(t.model()),
{
    let is_page = match t.get("type") {
        Some(JsonValue::Str(s)) => crate::json::str_eq(s.as_str(), "page"),
        _ => false,
    };
    let url = match t.get("url") {
        Some(JsonValue::Str(s)) => chars_of(s.as_str()),
        _ => {
            let e: Vec<char> = Vec::new();
            e
        },
    };
    is_page && !starts_with(url.as_slice(), chars_of("devtools://").as_slice()) && !starts_with(
        url.as_slice(),
        chars_of("chrome-extension://").as_slice(),
    )
}

/// The error when no page can be reloaded.
pub open spec fn no_pages_error() -> Seq<char> {
    "CDP 未发现可刷新的 ZCode 页面"@
}

/// The debugger URLs of ZCode's pages among the listed targets; an error
/// when there is none.
pub fn page_debugger_urls(targets: &Vec<JsonValue>) -> (r: Result<Vec<String>, String>)
    ensures
        page_urls(crate::json::models_of(targets@)).len() == 0 ==> (r matches Err(e) && e@ == no_pages_error()),
        page_urls(crate::json::models_of(targets@)).len() > 0 ==> (r matches Ok(us) && us@.map_values(
            |u: String| u@,
        ) == page_urls(crate::json::models_of(targets@))),
{
    let ghost tv = crate::json::models_of(targets@);
    proof {
        crate::json::lemma_models_of(targets@);
    }
    let mut out: Vec<String> = Vec::new();
    let n = targets.len();
    for i in 0..n
        invariant
            n == targets@.len(),
            tv == crate::json::models_of(targets@),
            tv.len() == n,
            forall|k: int| 0 <= k < n ==> #[trigger] tv[k] == targets@[k].model(),
            out@.map_values(|u: String| u@) == page_urls(tv.take(i as int)),
    {
        assert(tv.take(i + 1).drop_last() == tv.take(i as int));
        assert(tv.take(i + 1).last() == targets@[i as int].model());
        let ghost before = out@.map_values(|u: String| u@);
        let t = &targets[i];
        if reloadable(t) {
            match t.get("webSocketDebuggerUrl") {
                Some(JsonValue::Str(u)) => {
                    out.push(u.clone());
                    assert(out@.map_values(|u: String| u@) =~= before + seq![u@]);
                },
                _ => {
                    assert(out@.map_values(|u: String| u@) =~= before + Seq::<Seq<char>>::empty());
                },
            }
        } else {
            assert(out@.map_values(|u: String| u@) =~= before + Seq::<Seq<char>>::empty());
        }
    }
    assert(tv.take(n as int) == tv);
    if out.len() == 0 {
        return Err(owned("CDP 未发现可刷新的 ZCode 页面"));
    }
    Ok(out)
}

/// What to do with a text message on a page's DevTools socket.
pub enum ReplyDecision {
    /// Not the reply to the reload command: keep reading.
    KeepReading,
    /// The reload was accepted.
    Reloaded,
    /// The reload command failed.
    Failed(String),
}

/// The decision for a text message: `None` when it is not JSON.
pub open spec fn reply_decision(msg: Option<Json>) -> Option<Option<Seq<char>>> {
    match msg {
        None => None,
        Some(v) => if field(v, "id"@) != Some(Json::Num("1"@)) {
            None
        } else {
            match field(v, "error"@) {
                Some(err) => Some(Some("evaluate 失败："@ + json_text(err))),
                None => Some(None),
            }
        },
    }
}

/// Reads a text message on a page's DevTools socket: only the reply with
/// id 1 counts; a reply with an `error` member is a failure.
pub fn evaluate_reply(msg: Option<&JsonValue>) -> (r: ReplyDecision)
    ensures
        match reply_decision(match msg { Some(m) => Some(m.model()), None => None }) {
            None => r is KeepReading,
            Some(None) => r is Reloaded,
            Some(Some(e)) => r matches ReplyDecision::Failed(t) && t@ == e,
        },
{
    match msg {
        None => ReplyDecision::KeepReading,
        Some(v) => {
            let is_one = match v.get("id") {
                Some(JsonValue::Number(t)) => crate::json::str_eq(t.as_str(), "1"),
                _ => false,
            };
            if !is_one {
                return ReplyDecision::KeepReading;
            }
            match v.get("error") {
                Some(err) => {
                    let mut t = chars_of("evaluate 失败：");
                    let j = to_json_text(err);
                    extend_chars(&mut t, chars_of(j.as_str()).as_slice());
                    ReplyDecision::Failed(string_of(t.as_slice()))
                },
                None => ReplyDecision::Reloaded,
            }
        },
    }
}

/// The failure line for a page: `<url>: <error>`.
pub fn failure_line(url: &str, error: &str) -> (r: String)
    ensures
        r@ == url@ + ": "@ + error@,
{
    let mut t = chars_of(url);
    extend_chars(&mut t, chars_of(": ").as_slice());
    extend_chars(&mut t, chars_of(error).as_slice());
    string_of(t.as_slice())
}

/// The result of reloading every page: success, or the failures joined
/// with `；`.
pub fn reload_outcome(failures: &Vec<String>) -> (r: Result<(), String>)
    ensures
        failures@.len() == 0 ==> r is Ok,
        failures@.len() > 0 ==> (r matches Err(e) && e@ == join(failures@.map_values(|f: String| f@), "；"@)),
{
    if failures.len() == 0 {
        return Ok(());
    }
    let mut parts: Vec<Vec<char>> = Vec::new();
    let n = failures.len();
    for i in 0..n
        invariant
            n == failures@.len(),
            parts@.len() == i,
            forall|k: int| 0 <= k < i ==> #[trigger] parts@[k]@ == failures@[k]@,
    {
        parts.push(chars_of(failures[i].as_str()));
    }
    assert(parts@.map_values(|v: Vec<char>| v@) =~= failures@.map_values(|f: String| f@));
    let j = join_chars(&parts, chars_of("；").as_slice());
    Err(string_of(j.as_slice()))
}

} // verus!
