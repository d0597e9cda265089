//! Request bodies: what the gateway reads from a request and what it sends
//! upstream, and the provider entry it writes into ZCode's config.

use vstd::prelude::*;
use crate::json::{
    as_flag, as_text, field, json_text, lemma_members_of, lemma_models_of, member, members_of,
    models_of, owned, set_field, set_member, to_json_text, Json, JsonValue,
};
use crate::gateway::{
    local_origin, model_id, normalize_model_id, normalize_zcode_model, zcode_model,
    ZCODE_SWITCHER_PROVIDER_ID,
};
use crate::text::{lemma_texts_differ, chars_of, decimal_chars, extend_chars, join, join_chars, string_of, trim, trim_chars};

verus! {

// ---------------------------------------------------------------------------
// Streaming flag and token estimate
// ---------------------------------------------------------------------------

/// The request asks for a streamed reply: its `stream` member is `true`.
pub open spec fn stream_requested(req: Json) -> bool {
    as_flag(field(req, "stream"@)) == Some(true)
}

/// Whether a request asks for a streamed reply.
pub fn is_stream_request(request: &JsonValue) -> (r: bool)
    ensures
        r == stream_requested(request.model()),
{
    match request.get("stream") {
        Some(JsonValue::Bool(b)) => *b,
        _ => false,
    }
}

/// The number of characters in all strings of a document (keys excluded).
pub open spec fn text_len(v: Json) -> nat
    decreases v,
{
    match v {
        Json::Str(s) => s.len(),
        Json::Arr(items) => items_len(items),
        Json::Obj(ms) => members_len(ms),
        _ => 0,
    }
}

pub open spec fn items_len(items: Seq<Json>) -> nat
    decreases items,
{
    if items.len() == 0 {
        0
    } else {
        items_len(items.drop_last()) + text_len(items.last())
    }
}

pub open spec fn members_len(ms: Seq<(Seq<char>, Json)>) -> nat
    decreases ms,
{
    if ms.len() == 0 {
        0
    } else {
        members_len(ms.drop_last()) + text_len(ms.last().1)
    }
}

/// The token estimate: a quarter of the characters, at least one.
pub open spec fn token_estimate(v: Json) -> nat {
    if text_len(v) / 4 >= 1 {
        text_len(v) / 4
    } else {
        1
    }
}

proof fn lemma_items_len_prefix(s: Seq<Json>, i: int)
    requires
        0 <= i <= s.len(),
    ensures
        items_len(s.take(i)) <= items_len(s),
    decreases s.len(),
{
    if i < s.len() {
        assert(s.drop_last().take(i) == s.take(i));
        lemma_items_len_prefix(s.drop_last(), i);
    } else {
        assert(s.take(i) == s);
    }
}

proof fn lemma_members_len_prefix(s: Seq<(Seq<char>, Json)>, i: int)
    requires
        0 <= i <= s.len(),
    ensures
        members_len(s.take(i)) <= members_len(s),
    decreases s.len(),
{
    if i < s.len() {
        assert(s.drop_last().take(i) == s.take(i));
        lemma_members_len_prefix(s.drop_last(), i);
    } else {
        assert(s.take(i) == s);
    }
}

fn count_text(v: &JsonValue) -> (r: usize)
    requires
        text_len(v.model()) <= usize::MAX,
    ensures
        r == text_len(v.model()),
    decreases v,
{
    match v {
        JsonValue::Str(s) => {
            let cs = chars_of(s.as_str());
            cs.len()
        },
        JsonValue::Array(items) => {
            let mut total: usize = 0;
            let n = items.len();
            proof {
                lemma_models_of(items@);
            }
            for i in 0..n
                invariant
                    n == items@.len(),
                    *v == JsonValue::Array(*items),
                    models_of(items@).len() == n,
                    forall|k: int| 0 <= k < n ==> #[trigger] models_of(items@)[k] == items@[k].model(),
                    items_len(models_of(items@)) <= usize::MAX,
                    total == items_len(models_of(items@).take(i as int)),
            {
                let ghost m = models_of(items@);
                proof {
                    assert(decreases_to!(*v => v->Array_0));
                    assert(decreases_to!(*items => items@));
                    assert(decreases_to!(items@ => items@[i as int]));
                    assert(m.take(i + 1).drop_last() == m.take(i as int));
                    lemma_items_len_prefix(m, i + 1);
                }
                let c = count_text(&items[i]);
                total = total + c;
            }
            proof {
                assert(models_of(items@).take(n as int) == models_of(items@));
            }
            total
        },
        JsonValue::Object(ms) => {
            let mut total: usize = 0;
            let n = ms.len();
            proof {
                lemma_members_of(ms@);
            }
            for i in 0..n
                invariant
                    n == ms@.len(),
                    *v == JsonValue::Object(*ms),
                    members_of(ms@).len() == n,
                    forall|k: int|
                        0 <= k < n ==> #[trigger] members_of(ms@)[k] == (ms@[k].0@, ms@[k].1.model()),
                    members_len(members_of(ms@)) <= usize::MAX,
                    total == members_len(members_of(ms@).take(i as int)),
            {
                let ghost m = members_of(ms@);
                proof {
                    assert(decreases_to!(*v => v->Object_0));
                    assert(decreases_to!(*ms => ms@));
                    assert(decreases_to!(ms@ => ms@[i as int]));
                    assert(decreases_to!(ms@[i as int] => ms@[i as int].1));
                    assert(m.take(i + 1).drop_last() == m.take(i as int));
                    lemma_members_len_prefix(m, i + 1);
                }
                let c = count_text(&ms[i].1);
                total = total + c;
            }
            proof {
                assert(members_of(ms@).take(n as int) == members_of(ms@));
            }
            total
        },
        _ => 0,
    }
}

/// Estimates the input tokens of a request: a quarter of the characters in
/// its strings, at least one. The character count of a document held in
/// memory always fits in `usize`.
pub fn estimate_input_tokens(value: &JsonValue) -> (r: usize)
    requires
        text_len(value.model()) <= usize::MAX,
    ensures
        r == token_estimate(value.model()),
{
    let n = count_text(value);
    let q = n / 4;
    if q >= 1 {
        q
    } else {
        1
    }
}


// ---------------------------------------------------------------------------
// The gateway's provider entry in ZCode's config
// ---------------------------------------------------------------------------

/// `{"input": ["text"], "output": ["text"]}`.
pub open spec fn text_modalities() -> Json {
    Json::Obj(seq![
        ("input"@, Json::Arr(seq![Json::Str("text"@)])),
        ("output"@, Json::Arr(seq![Json::Str("text"@)])),
    ])
}

/// One model entry: a context limit of 1000000 and text in and out.
pub open spec fn model_entry_json() -> Json {
    Json::Obj(seq![
        ("limit"@, Json::Obj(seq![("context"@, Json::Num("1000000"@))])),
        ("modalities"@, text_modalities()),
    ])
}

/// The provider entry that points ZCode at the gateway.
pub open spec fn local_provider_json(base_url: Seq<char>, key: Seq<char>) -> Json {
    Json::Obj(seq![
        ("name"@, Json::Str("ZCode Switcher"@)),
        ("kind"@, Json::Str("anthropic"@)),
        ("options"@, Json::Obj(seq![
            ("apiKey"@, Json::Str(key)),
            ("apiKeyRequired"@, Json::Bool(true)),
            ("baseURL"@, Json::Str(base_url)),
        ])),
        ("enabled"@, Json::Bool(true)),
        ("source"@, Json::Str("custom"@)),
        ("models"@, Json::Obj(seq![
            ("GLM-5.3 Flash"@, model_entry_json()),
            ("GLM-5.3"@, model_entry_json()),
            ("GLM-5.2"@, model_entry_json()),
        ])),
    ])
}

/// A model entry ZCode accepts: a context limit of 1000000 tokens, text in
/// and text out.
pub open spec fn is_text_model_entry(v: Json) -> bool {
    &&& field(v, "limit"@) matches Some(l) && field(l, "context"@) == Some(Json::Num("1000000"@))
    &&& field(v, "modalities"@) matches Some(m) && field(m, "input"@) == Some(Json::Arr(seq![Json::Str("text"@)]))
        && field(m, "output"@) == Some(Json::Arr(seq![Json::Str("text"@)]))
}

proof fn lemma_entry_is_text_model()
    ensures
        is_text_model_entry(model_entry_json()),
{
    reveal_strlit("limit");
    reveal_strlit("modalities");
    reveal_strlit("context");
    reveal_strlit("input");
    reveal_strlit("output");
    let e = seq![
        ("limit"@, Json::Obj(seq![("context"@, Json::Num("1000000"@))])),
        ("modalities"@, text_modalities()),
    ];
    crate::json::lemma_member_at(e, "limit"@, 0);
    lemma_texts_differ("limit"@, "modalities"@, 0);
    crate::json::lemma_member_at(e, "modalities"@, 1);
    crate::json::lemma_member_at(seq![("context"@, Json::Num("1000000"@))], "context"@, 0);
    let m = seq![
        ("input"@, Json::Arr(seq![Json::Str("text"@)])),
        ("output"@, Json::Arr(seq![Json::Str("text"@)])),
    ];
    crate::json::lemma_member_at(m, "input"@, 0);
    lemma_texts_differ("input"@, "output"@, 0);
    crate::json::lemma_member_at(m, "output"@, 1);
}

/// The gateway's provider entry: named `ZCode Switcher`, of kind
/// `anthropic`, enabled, from a custom source, holding the gateway key (which
/// is required) and base URL, and offering exactly the three pool models
/// `GLM-5.3 Flash`, `GLM-5.3` and `GLM-5.2`, each with a context of 1000000
/// tokens and text in and out.
pub proof fn law_provider_entry(base_url: Seq<char>, key: Seq<char>)
    ensures
        field(local_provider_json(base_url, key), "name"@) == Some(Json::Str("ZCode Switcher"@)),
        field(local_provider_json(base_url, key), "kind"@) == Some(Json::Str("anthropic"@)),
        field(local_provider_json(base_url, key), "enabled"@) == Some(Json::Bool(true)),
        field(local_provider_json(base_url, key), "source"@) == Some(Json::Str("custom"@)),
        field(local_provider_json(base_url, key), "options"@) matches Some(o) && field(o, "apiKey"@) == Some(
            Json::Str(key),
        ) && field(o, "apiKeyRequired"@) == Some(Json::Bool(true)) && field(o, "baseURL"@) == Some(
            Json::Str(base_url),
        ),
        field(local_provider_json(base_url, key), "models"@) matches Some(Json::Obj(ms)) && ms.len() == 3
            && (member(ms, "GLM-5.3 Flash"@) matches Some(a) && is_text_model_entry(a)) && (member(
            ms,
            "GLM-5.3"@,
        ) matches Some(b) && is_text_model_entry(b)) && (member(ms, "GLM-5.2"@) matches Some(c)
            && is_text_model_entry(c)),
{
    reveal_strlit("name");
    reveal_strlit("kind");
    reveal_strlit("options");
    reveal_strlit("enabled");
    reveal_strlit("source");
    reveal_strlit("models");
    reveal_strlit("apiKey");
    reveal_strlit("apiKeyRequired");
    reveal_strlit("baseURL");
    reveal_strlit("GLM-5.3 Flash");
    reveal_strlit("GLM-5.3");
    reveal_strlit("GLM-5.2");
    lemma_entry_is_text_model();
    let e = seq![
        ("name"@, Json::Str("ZCode Switcher"@)),
        ("kind"@, Json::Str("anthropic"@)),
        ("options"@, Json::Obj(seq![
            ("apiKey"@, Json::Str(key)),
            ("apiKeyRequired"@, Json::Bool(true)),
            ("baseURL"@, Json::Str(base_url)),
        ])),
        ("enabled"@, Json::Bool(true)),
        ("source"@, Json::Str("custom"@)),
        ("models"@, Json::Obj(seq![
            ("GLM-5.3 Flash"@, model_entry_json()),
            ("GLM-5.3"@, model_entry_json()),
            ("GLM-5.2"@, model_entry_json()),
        ])),
    ];
    assert(local_provider_json(base_url, key) == Json::Obj(e));
    crate::json::lemma_member_at(e, "name"@, 0);
    lemma_texts_differ("name"@, "kind"@, 0);
    crate::json::lemma_member_at(e, "kind"@, 1);
    lemma_texts_differ("name"@, "options"@, 0);
    lemma_texts_differ("kind"@, "options"@, 0);
    crate::json::lemma_member_at(e, "options"@, 2);
    lemma_texts_differ("name"@, "enabled"@, 0);
    lemma_texts_differ("kind"@, "enabled"@, 0);
    lemma_texts_differ("options"@, "enabled"@, 0);
    crate::json::lemma_member_at(e, "enabled"@, 3);
    lemma_texts_differ("name"@, "source"@, 0);
    lemma_texts_differ("kind"@, "source"@, 0);
    lemma_texts_differ("options"@, "source"@, 0);
    lemma_texts_differ("enabled"@, "source"@, 0);
    crate::json::lemma_member_at(e, "source"@, 4);
    lemma_texts_differ("name"@, "models"@, 0);
    lemma_texts_differ("kind"@, "models"@, 0);
    lemma_texts_differ("options"@, "models"@, 0);
    lemma_texts_differ("enabled"@, "models"@, 0);
    lemma_texts_differ("source"@, "models"@, 0);
    crate::json::lemma_member_at(e, "models"@, 5);
    let o = seq![
        ("apiKey"@, Json::Str(key)),
        ("apiKeyRequired"@, Json::Bool(true)),
        ("baseURL"@, Json::Str(base_url)),
    ];
    crate::json::lemma_member_at(o, "apiKey"@, 0);
    lemma_texts_differ("apiKey"@, "apiKeyRequired"@, 0);
    crate::json::lemma_member_at(o, "apiKeyRequired"@, 1);
    lemma_texts_differ("apiKey"@, "baseURL"@, 0);
    lemma_texts_differ("apiKeyRequired"@, "baseURL"@, 0);
    crate::json::lemma_member_at(o, "baseURL"@, 2);
    let ms = seq![
        ("GLM-5.3 Flash"@, model_entry_json()),
        ("GLM-5.3"@, model_entry_json()),
        ("GLM-5.2"@, model_entry_json()),
    ];
    crate::json::lemma_member_at(ms, "GLM-5.3 Flash"@, 0);
    lemma_texts_differ("GLM-5.3 Flash"@, "GLM-5.3"@, 0);
    crate::json::lemma_member_at(ms, "GLM-5.3"@, 1);
    lemma_texts_differ("GLM-5.3 Flash"@, "GLM-5.2"@, 0);
    lemma_texts_differ("GLM-5.3"@, "GLM-5.2"@, 6);
    crate::json::lemma_member_at(ms, "GLM-5.2"@, 2);
}

fn text_list() -> (r: JsonValue)
    ensures
        r.model() == Json::Arr(seq![Json::Str("text"@)]),
{
    let v = vec![JsonValue::Str(owned("text"))];
    proof {
        lemma_models_of(v@);
        assert(models_of(v@) =~= seq![Json::Str("text"@)]);
    }
    JsonValue::Array(v)
}

fn model_entry() -> (r: JsonValue)
    ensures
        r.model() == model_entry_json(),
{
    let limit = vec![(owned("context"), JsonValue::Number(owned("1000000")))];
    proof {
        lemma_members_of(limit@);
        assert(members_of(limit@) =~= seq![("context"@, Json::Num("1000000"@))]);
    }
    let limit = JsonValue::Object(limit);
    let input = text_list();
    let output = text_list();
    let modalities = vec![(owned("input"), input), (owned("output"), output)];
    proof {
        lemma_members_of(modalities@);
        assert(members_of(modalities@) =~= seq![
            ("input"@, Json::Arr(seq![Json::Str("text"@)])),
            ("output"@, Json::Arr(seq![Json::Str("text"@)])),
        ]);
    }
    let modalities = JsonValue::Object(modalities);
    let ghost lm = limit.model();
    let ghost mm = modalities.model();
    let entry = vec![(owned("limit"), limit), (owned("modalities"), modalities)];
    proof {
        lemma_members_of(entry@);
        assert(members_of(entry@) =~= seq![("limit"@, lm), ("modalities"@, mm)]);
    }
    JsonValue::Object(entry)
}

/// The provider entry that points ZCode at the gateway at `base_url`,
/// authenticated with `gateway_key`.
pub fn local_provider_value(base_url: &str, gateway_key: &str) -> (r: JsonValue)
    ensures
        r.model() == local_provider_json(base_url@, gateway_key@),
{
    let options = vec![
        (owned("apiKey"), JsonValue::Str(owned(gateway_key))),
        (owned("apiKeyRequired"), JsonValue::Bool(true)),
        (owned("baseURL"), JsonValue::Str(owned(base_url))),
    ];
    proof {
        lemma_members_of(options@);
        assert(members_of(options@) =~= seq![
            ("apiKey"@, Json::Str(gateway_key@)),
            ("apiKeyRequired"@, Json::Bool(true)),
            ("baseURL"@, Json::Str(base_url@)),
        ]);
    }
    let options = JsonValue::Object(options);
    let m1 = model_entry();
    let m2 = model_entry();
    let m3 = model_entry();
    let models = vec![(owned("GLM-5.3 Flash"), m1), (owned("GLM-5.3"), m2), (owned("GLM-5.2"), m3)];
    proof {
        lemma_members_of(models@);
        assert(members_of(models@) =~= seq![
            ("GLM-5.3 Flash"@, model_entry_json()),
            ("GLM-5.3"@, model_entry_json()),
            ("GLM-5.2"@, model_entry_json()),
        ]);
    }
    let models = JsonValue::Object(models);
    let ghost om = options.model();
    let ghost mm = models.model();
    let entry = vec![
        (owned("name"), JsonValue::Str(owned("ZCode Switcher"))),
        (owned("kind"), JsonValue::Str(owned("anthropic"))),
        (owned("options"), options),
        (owned("enabled"), JsonValue::Bool(true)),
        (owned("source"), JsonValue::Str(owned("custom"))),
        (owned("models"), models),
    ];
    proof {
        lemma_members_of(entry@);
        assert(members_of(entry@) =~= seq![
            ("name"@, Json::Str("ZCode Switcher"@)),
            ("kind"@, Json::Str("anthropic"@)),
            ("options"@, om),
            ("enabled"@, Json::Bool(true)),
            ("source"@, Json::Str("custom"@)),
            ("models"@, mm),
        ]);
    }
    JsonValue::Object(entry)
}

/// The error when ZCode's `provider` member is not an object.
pub open spec fn provider_not_object_error() -> Seq<char> {
    "ZCode provider 配置不是对象"@
}

/// ZCode's config with the gateway's provider entry set. A missing or
/// unreadable config, or one that is not an object, counts as `{}`; a
/// `provider` member that is not an object is an error.
pub open spec fn upserted_config(cfg: Option<Json>, port: u16, key: Seq<char>) -> Result<Json, Seq<char>> {
    let ms = match cfg {
        Some(Json::Obj(ms)) => ms,
        _ => Seq::empty(),
    };
    let entry = local_provider_json(local_origin(port), key);
    match member(ms, "provider"@) {
        None => Ok(Json::Obj(ms.push(("provider"@, Json::Obj(seq![(ZCODE_SWITCHER_PROVIDER_ID@, entry)]))))),
        Some(Json::Obj(ps)) => Ok(Json::Obj(set_member(ms, "provider"@, Json::Obj(set_member(ps, ZCODE_SWITCHER_PROVIDER_ID@, entry))))),
        Some(_) => Err(provider_not_object_error()),
    }
}

/// Sets the gateway's provider entry in ZCode's config (`None` when the
/// config file is missing or is not JSON).
pub fn upsert_local_provider(cfg: Option<JsonValue>, port: u16, gateway_key: &str) -> (r: Result<JsonValue, String>)
    ensures
        match (r, upserted_config(match cfg { Some(c) => Some(c.model()), None => None }, port, gateway_key@)) {
            (Ok(v), Ok(m)) => v.model() == m,
            (Err(e), Err(m)) => e@ == m,
            _ => false,
        },
{
    let ghost cm = match &cfg { Some(c) => Some(c.model()), None => None };
    let ghost m0 = match cm { Some(Json::Obj(x)) => x, _ => Seq::<(Seq<char>, Json)>::empty() };
    let mut ms: Vec<(String, JsonValue)> = match cfg {
        Some(JsonValue::Object(ms)) => ms,
        _ => Vec::new(),
    };
    proof {
        lemma_members_of(ms@);
        if ms@.len() == 0 {
            assert(members_of(ms@) =~= Seq::<(Seq<char>, Json)>::empty());
        }
    }
    let mut origin = chars_of("http://127.0.0.1:");
    let digits = decimal_chars(port as u64);
    extend_chars(&mut origin, digits.as_slice());
    let origin = string_of(origin.as_slice());
    assert(origin@ == local_origin(port));
    let entry = local_provider_value(origin.as_str(), gateway_key);
    let ghost em = entry.model();
    assert(members_of(ms@) == m0);
    match crate::json::find_member(&ms, "provider") {
        None => {
            let inner = vec![(owned(ZCODE_SWITCHER_PROVIDER_ID), entry)];
            proof {
                lemma_members_of(inner@);
                assert(members_of(inner@) =~= seq![(ZCODE_SWITCHER_PROVIDER_ID@, em)]);
            }
            let ghost before = ms@;
            let pv = JsonValue::Object(inner);
            let ghost pvm = pv.model();
            assert(pvm == Json::Obj(seq![(ZCODE_SWITCHER_PROVIDER_ID@, em)]));
            let pk = owned("provider");
            ms.push((pk, pv));
            proof {
                assert(ms@.drop_last() == before);
                assert(members_of(before) == m0);
                assert(ms@.last().0@ == "provider"@);
                assert(ms@.last().1.model() == pvm);
                assert(member(m0, "provider"@) is None);
                assert(members_of(ms@) == m0.push(("provider"@, Json::Obj(seq![(ZCODE_SWITCHER_PROVIDER_ID@, em)]))));
            }
            Ok(JsonValue::Object(ms))
        },
        Some(i) => {
            proof {
                let m = members_of(ms@);
                crate::json::lemma_first_key_unique(
                    m,
                    "provider"@,
                    i as int,
                    choose|k: int| crate::json::first_key_at(m, "provider"@, k),
                );
            }
            let slot = ms[i].1.copy();
            match slot {
                JsonValue::Object(mut ps) => {
                    set_field(&mut ps, ZCODE_SWITCHER_PROVIDER_ID, entry);
                    let ghost pm = members_of(ps@);
                    set_field(&mut ms, "provider", JsonValue::Object(ps));
                    assert(member(m0, "provider"@) == Some(m0[i as int].1));
                    Ok(JsonValue::Object(ms))
                },
                _ => Err(owned("ZCode provider 配置不是对象")),
            }
        },
    }
}


/// The gateway's entry as an upsert writes it.
pub open spec fn gateway_entry(port: u16, key: Seq<char>) -> Json {
    local_provider_json(local_origin(port), key)
}

/// After an upsert, the config's `provider` member holds the gateway's
/// entry under the gateway's id.
pub proof fn law_upsert_installs_entry(cfg: Option<Json>, port: u16, key: Seq<char>)
    ensures
        upserted_config(cfg, port, key) matches Ok(c) ==> (field(c, "provider"@) matches Some(p) && field(
            p,
            ZCODE_SWITCHER_PROVIDER_ID@,
        ) == Some(gateway_entry(port, key))),
{
    let ms = match cfg {
        Some(Json::Obj(ms)) => ms,
        _ => Seq::empty(),
    };
    let entry = gateway_entry(port, key);
    match member(ms, "provider"@) {
        None => {
            let inner = seq![(ZCODE_SWITCHER_PROVIDER_ID@, entry)];
            assert(set_member(Seq::empty(), ZCODE_SWITCHER_PROVIDER_ID@, entry) =~= inner);
            crate::json::law_get_after_set(Seq::empty(), ZCODE_SWITCHER_PROVIDER_ID@, entry);
            assert(set_member(ms, "provider"@, Json::Obj(inner)) == ms.push(("provider"@, Json::Obj(inner))));
            crate::json::law_get_after_set(ms, "provider"@, Json::Obj(inner));
        },
        Some(Json::Obj(ps)) => {
            crate::json::law_get_after_set(ps, ZCODE_SWITCHER_PROVIDER_ID@, entry);
            crate::json::law_get_after_set(
                ms,
                "provider"@,
                Json::Obj(set_member(ps, ZCODE_SWITCHER_PROVIDER_ID@, entry)),
            );
        },
        Some(_) => {},
    }
}

/// Upserting into a config that an upsert produced changes nothing.
pub proof fn law_upsert_idempotent(cfg: Option<Json>, port: u16, key: Seq<char>)
    ensures
        upserted_config(cfg, port, key) matches Ok(c) ==> upserted_config(Some(c), port, key) == Ok::<Json, Seq<char>>(c),
{
    let ms = match cfg {
        Some(Json::Obj(ms)) => ms,
        _ => Seq::empty(),
    };
    let entry = gateway_entry(port, key);
    let id = ZCODE_SWITCHER_PROVIDER_ID@;
    let ps = match member(ms, "provider"@) {
        Some(Json::Obj(ps)) => ps,
        _ => Seq::empty(),
    };
    if member(ms, "provider"@) is None || member(ms, "provider"@) matches Some(Json::Obj(_)) {
        if member(ms, "provider"@) is None {
            assert(set_member(Seq::empty(), id, entry) =~= seq![(id, entry)]);
            assert(set_member(ms, "provider"@, Json::Obj(seq![(id, entry)])) == ms.push(
                ("provider"@, Json::Obj(seq![(id, entry)])),
            ));
        }
        let p2 = set_member(ps, id, entry);
        let ms2 = set_member(ms, "provider"@, Json::Obj(p2));
        assert(upserted_config(cfg, port, key) == Ok::<Json, Seq<char>>(Json::Obj(ms2)));
        crate::json::law_get_after_set(ms, "provider"@, Json::Obj(p2));
        crate::json::law_set_idempotent(ps, id, entry);
        crate::json::law_set_idempotent(ms, "provider"@, Json::Obj(p2));
    }
}

// ---------------------------------------------------------------------------
// Anthropic request -> OpenAI chat request
// ---------------------------------------------------------------------------

/// The text of the `system` member: a string as it is, anything else as
/// compact JSON; blank text counts as absent.
pub open spec fn system_text(req: Json) -> Option<Seq<char>> {
    match field(req, "system"@) {
        None => None,
        Some(v) => {
            let t = match v {
                Json::Str(s) => s,
                other => json_text(other),
            };
            if trim(t).len() == 0 {
                None
            } else {
                Some(t)
            }
        },
    }
}

/// The role and content of a message, when it reads as one: an object with
/// a string `role` and a `content`, or a pair `[role, content]`.
pub open spec fn message_parts(item: Json) -> Option<(Seq<char>, Json)> {
    match item {
        Json::Obj(ms) => match (member(ms, "role"@), member(ms, "content"@)) {
            (Some(Json::Str(role)), Some(content)) => Some((role, content)),
            _ => None,
        },
        Json::Arr(xs) => if xs.len() == 2 {
            match xs[0] {
                Json::Str(role) => Some((role, xs[1])),
                _ => None,
            }
        } else {
            None
        },
        _ => None,
    }
}

/// The `text` members of the parts that have a string one.
pub open spec fn part_texts(parts: Seq<Json>) -> Seq<Seq<char>>
    decreases parts.len(),
{
    if parts.len() == 0 {
        Seq::empty()
    } else {
        part_texts(parts.drop_last()) + match as_text(field(parts.last(), "text"@)) {
            Some(t) => seq![t],
            None => Seq::<Seq<char>>::empty(),
        }
    }
}

/// Message content as plain text: a string as it is, a list of parts as
/// their texts on separate lines, anything else as compact JSON.
pub open spec fn content_text(c: Json) -> Seq<char> {
    match c {
        Json::Str(s) => s,
        Json::Arr(parts) => join(part_texts(parts), "\n"@),
        other => json_text(other),
    }
}

/// `{"role": <role>, "content": <content>}`.
pub open spec fn chat_message(role: Seq<char>, content: Seq<char>) -> Json {
    Json::Obj(seq![("role"@, Json::Str(role)), ("content"@, Json::Str(content))])
}

/// The chat messages for the items that read as messages, in order.
pub open spec fn chat_messages(items: Seq<Json>) -> Seq<Json>
    decreases items.len(),
{
    if items.len() == 0 {
        Seq::empty()
    } else {
        chat_messages(items.drop_last()) + match message_parts(items.last()) {
            Some((role, content)) => seq![chat_message(role, content_text(content))],
            None => Seq::<Json>::empty(),
        }
    }
}

/// The system message, if any, then the request's messages.
pub open spec fn openai_messages(req: Json) -> Seq<Json> {
    (match system_text(req) {
        Some(t) => seq![chat_message("system"@, t)],
        None => Seq::<Json>::empty(),
    }) + match field(req, "messages"@) {
        Some(Json::Arr(items)) => chat_messages(items),
        _ => Seq::<Json>::empty(),
    }
}

/// The OpenAI chat request for an Anthropic messages request.
pub open spec fn openai_body(req: Json) -> Json {
    let model = match as_text(field(req, "model"@)) {
        Some(m) => model_id(m),
        None => "glm-5.3-flash"@,
    };
    let stream = match field(req, "stream"@) {
        Some(v) => v,
        None => Json::Bool(false),
    };
    let base = seq![
        ("model"@, Json::Str(model)),
        ("messages"@, Json::Arr(openai_messages(req))),
        ("stream"@, stream),
    ];
    let t = match field(req, "temperature"@) {
        Some(v) => seq![("temperature"@, v)],
        None => Seq::<(Seq<char>, Json)>::empty(),
    };
    let m = match field(req, "max_tokens"@) {
        Some(v) => seq![("max_tokens"@, v)],
        None => Seq::<(Seq<char>, Json)>::empty(),
    };
    Json::Obj(base + t + m)
}

fn decode_message(item: &JsonValue) -> (r: Option<(String, &JsonValue)>)
    ensures
        match r {
            Some((role, c)) => message_parts(item.model()) == Some((role@, c.model())),
            None => message_parts(item.model()) is None,
        },
{
    match item {
        JsonValue::Object(_) => {
            let role = item.get("role");
            let content = item.get("content");
            match (role, content) {
                (Some(JsonValue::Str(r)), Some(c)) => Some((r.clone(), c)),
                _ => None,
            }
        },
        JsonValue::Array(xs) => {
            proof {
                lemma_models_of(xs@);
            }
            if xs.len() == 2 {
                match &xs[0] {
                    JsonValue::Str(r) => Some((r.clone(), &xs[1])),
                    _ => None,
                }
            } else {
                None
            }
        },
        _ => None,
    }
}

fn content_chars(c: &JsonValue) -> (r: Vec<char>)
    ensures
        r@ == content_text(c.model()),
{
    match c {
        JsonValue::Str(s) => chars_of(s.as_str()),
        JsonValue::Array(parts) => {
            let mut texts: Vec<Vec<char>> = Vec::new();
            let n = parts.len();
            proof {
                lemma_models_of(parts@);
            }
            for i in 0..n
                invariant
                    n == parts@.len(),
                    models_of(parts@).len() == n,
                    forall|k: int| 0 <= k < n ==> #[trigger] models_of(parts@)[k] == parts@[k].model(),
                    texts@.map_values(|v: Vec<char>| v@) == part_texts(models_of(parts@).take(i as int)),
            {
                let ghost m = models_of(parts@);
                let ghost before = texts@;
                assert(m.take(i + 1).drop_last() == m.take(i as int));
                assert(m.take(i + 1).last() == parts@[i as int].model());
                match parts[i].get("text") {
                    Some(JsonValue::Str(t)) => {
                        texts.push(chars_of(t.as_str()));
                        assert(texts@.map_values(|v: Vec<char>| v@) =~= before.map_values(|v: Vec<char>| v@) + seq![t@]);
                    },
                    _ => {
                        assert(texts@.map_values(|v: Vec<char>| v@) =~= before.map_values(|v: Vec<char>| v@) + Seq::<Seq<char>>::empty());
                    },
                }
            }
            proof {
                assert(models_of(parts@).take(n as int) == models_of(parts@));
            }
            let sep = chars_of("\n");
            join_chars(&texts, sep.as_slice())
        },
        _ => {
            let t = to_json_text(c);
            chars_of(t.as_str())
        },
    }
}

fn chat_message_value(role: String, content: String) -> (r: JsonValue)
    ensures
        r.model() == chat_message(role@, content@),
{
    let ghost rv = role@;
    let ghost cv = content@;
    let ms = vec![(owned("role"), JsonValue::Str(role)), (owned("content"), JsonValue::Str(content))];
    proof {
        lemma_members_of(ms@);
        assert(members_of(ms@) =~= seq![("role"@, Json::Str(rv)), ("content"@, Json::Str(cv))]);
    }
    JsonValue::Object(ms)
}

fn system_chars(request: &JsonValue) -> (r: Option<Vec<char>>)
    ensures
        match r {
            Some(t) => system_text(request.model()) == Some(t@),
            None => system_text(request.model()) is None,
        },
{
    match request.get("system") {
        None => None,
        Some(v) => {
            let t = match v {
                JsonValue::Str(s) => chars_of(s.as_str()),
                other => {
                    let j = to_json_text(other);
                    chars_of(j.as_str())
                },
            };
            let tt = trim_chars(t.as_slice());
            if tt.len() == 0 {
                None
            } else {
                Some(t)
            }
        },
    }
}

fn chat_message_list(items: &Vec<JsonValue>) -> (r: Vec<JsonValue>)
    ensures
        models_of(r@) == chat_messages(models_of(items@)),
{
    let mut out: Vec<JsonValue> = Vec::new();
    let n = items.len();
    proof {
        lemma_models_of(items@);
    }
    for i in 0..n
        invariant
            n == items@.len(),
            models_of(items@).len() == n,
            forall|k: int| 0 <= k < n ==> #[trigger] models_of(items@)[k] == items@[k].model(),
            models_of(out@) == chat_messages(models_of(items@).take(i as int)),
    {
        let ghost m = models_of(items@);
        let ghost before = out@;
        assert(m.take(i + 1).drop_last() == m.take(i as int));
        assert(m.take(i + 1).last() == items@[i as int].model());
        match decode_message(&items[i]) {
            Some((role, c)) => {
                let content = content_chars(c);
                let msg = chat_message_value(role, string_of(content.as_slice()));
                out.push(msg);
                assert(out@.drop_last() == before);
                assert(models_of(out@) =~= models_of(before) + seq![msg.model()]);
            },
            None => {
                assert(models_of(out@) =~= models_of(before) + Seq::<Json>::empty());
            },
        }
    }
    proof {
        assert(models_of(items@).take(n as int) == models_of(items@));
    }
    out
}

/// The OpenAI chat-completions body for an Anthropic messages request.
pub fn anthropic_to_openai_body(request: &JsonValue) -> (r: JsonValue)
    ensures
        r.model() == openai_body(request.model()),
{
    let mut messages: Vec<JsonValue> = Vec::new();
    let ghost req = request.model();
    match system_chars(request) {
        Some(t) => {
            let msg = chat_message_value(owned("system"), string_of(t.as_slice()));
            messages.push(msg);
            proof {
                lemma_models_of(messages@);
                assert(models_of(messages@) =~= seq![chat_message("system"@, t@)]);
            }
        },
        None => {
            assert(models_of(messages@) =~= Seq::<Json>::empty());
        },
    }
    let ghost sys = models_of(messages@);
    match request.get("messages") {
        Some(JsonValue::Array(items)) => {
            let mut rest = chat_message_list(items);
            proof {
                lemma_models_of(messages@);
                lemma_models_of(rest@);
            }
            let ghost rm = models_of(rest@);
            messages.append(&mut rest);
            proof {
                lemma_models_of(messages@);
                assert(models_of(messages@) =~= sys + rm);
            }
        },
        _ => {
            assert(models_of(messages@) =~= sys + Seq::<Json>::empty());
        },
    }
    let model = match request.get("model") {
        Some(JsonValue::Str(m)) => normalize_model_id(m.as_str()),
        _ => owned("glm-5.3-flash"),
    };
    let stream = match request.get("stream") {
        Some(v) => v.copy(),
        None => JsonValue::Bool(false),
    };
    let ghost mv = model@;
    let ghost sv = stream.model();
    let ghost msv = models_of(messages@);
    let mut body = vec![
        (owned("model"), JsonValue::Str(model)),
        (owned("messages"), JsonValue::Array(messages)),
        (owned("stream"), stream),
    ];
    proof {
        lemma_members_of(body@);
        assert(members_of(body@) =~= seq![
            ("model"@, Json::Str(mv)),
            ("messages"@, Json::Arr(msv)),
            ("stream"@, sv),
        ]);
    }
    let ghost b0 = members_of(body@);
    match request.get("temperature") {
        Some(v) => {
            let c = v.copy();
            body.push((owned("temperature"), c));
            proof {
                lemma_members_of(body@);
                assert(members_of(body@) =~= b0 + seq![("temperature"@, c.model())]);
            }
        },
        None => {
            assert(members_of(body@) =~= b0 + Seq::<(Seq<char>, Json)>::empty());
        },
    }
    let ghost b1 = members_of(body@);
    match request.get("max_tokens") {
        Some(v) => {
            let c = v.copy();
            body.push((owned("max_tokens"), c));
            proof {
                lemma_members_of(body@);
                assert(members_of(body@) =~= b1 + seq![("max_tokens"@, c.model())]);
            }
        },
        None => {
            assert(members_of(body@) =~= b1 + Seq::<(Seq<char>, Json)>::empty());
        },
    }
    JsonValue::Object(body)
}

/// The OpenAI body carries the request's `temperature` and `max_tokens`, each
/// exactly when the request has it and whether or not it has the other; its
/// `stream` is the request's (`false` where it has none), its `model` the
/// upstream id of the requested model (`glm-5.3-flash` where none is named),
/// and its `messages` the system message followed by the request's messages.
pub proof fn law_openai_body(req: Json)
    ensures
        field(openai_body(req), "temperature"@) == field(req, "temperature"@),
        field(openai_body(req), "max_tokens"@) == field(req, "max_tokens"@),
        field(openai_body(req), "stream"@) == Some(
            match field(req, "stream"@) {
                Some(v) => v,
                None => Json::Bool(false),
            },
        ),
        field(openai_body(req), "model"@) == Some(
            Json::Str(
                match as_text(field(req, "model"@)) {
                    Some(m) => model_id(m),
                    None => "glm-5.3-flash"@,
                },
            ),
        ),
        field(openai_body(req), "messages"@) == Some(Json::Arr(openai_messages(req))),
{
    reveal_strlit("model");
    reveal_strlit("messages");
    reveal_strlit("stream");
    reveal_strlit("temperature");
    reveal_strlit("max_tokens");
    lemma_texts_differ("model"@, "messages"@, 0);
    lemma_texts_differ("model"@, "stream"@, 0);
    lemma_texts_differ("model"@, "temperature"@, 0);
    lemma_texts_differ("model"@, "max_tokens"@, 0);
    lemma_texts_differ("messages"@, "stream"@, 0);
    lemma_texts_differ("messages"@, "temperature"@, 0);
    lemma_texts_differ("messages"@, "max_tokens"@, 0);
    lemma_texts_differ("stream"@, "temperature"@, 0);
    lemma_texts_differ("stream"@, "max_tokens"@, 0);
    lemma_texts_differ("temperature"@, "max_tokens"@, 0);
    let model = match as_text(field(req, "model"@)) {
        Some(m) => model_id(m),
        None => "glm-5.3-flash"@,
    };
    let stream = match field(req, "stream"@) {
        Some(v) => v,
        None => Json::Bool(false),
    };
    let base = seq![
        ("model"@, Json::Str(model)),
        ("messages"@, Json::Arr(openai_messages(req))),
        ("stream"@, stream),
    ];
    let t = match field(req, "temperature"@) {
        Some(v) => seq![("temperature"@, v)],
        None => Seq::<(Seq<char>, Json)>::empty(),
    };
    let m = match field(req, "max_tokens"@) {
        Some(v) => seq![("max_tokens"@, v)],
        None => Seq::<(Seq<char>, Json)>::empty(),
    };
    let all = base + t + m;
    assert(openai_body(req) == Json::Obj(all));
    assert(all[0] == ("model"@, Json::Str(model)));
    assert(all[1] == ("messages"@, Json::Arr(openai_messages(req))));
    assert(all[2] == ("stream"@, stream));
    crate::json::lemma_member_at(all, "model"@, 0);
    crate::json::lemma_member_at(all, "messages"@, 1);
    crate::json::lemma_member_at(all, "stream"@, 2);
    match field(req, "temperature"@) {
        Some(v) => {
            assert(all[3] == ("temperature"@, v));
            crate::json::lemma_member_at(all, "temperature"@, 3);
        },
        None => {
            assert forall|j: int| 0 <= j < all.len() implies all[j].0 != "temperature"@ by {
                if j >= 3 {
                    assert(all[j] == m[j - 3]);
                }
            }
            crate::json::lemma_member_absent(all, "temperature"@);
        },
    }
    match field(req, "max_tokens"@) {
        Some(v) => {
            let k: int = 3 + t.len() as int;
            assert(all[k] == ("max_tokens"@, v));
            assert forall|j: int| 0 <= j < k implies all[j].0 != "max_tokens"@ by {
                if j >= 3 {
                    assert(all[j] == t[j - 3]);
                }
            }
            crate::json::lemma_member_at(all, "max_tokens"@, k);
        },
        None => {
            assert forall|j: int| 0 <= j < all.len() implies all[j].0 != "max_tokens"@ by {
                if j >= 3 {
                    assert(all[j] == t[j - 3]);
                }
            }
            crate::json::lemma_member_absent(all, "max_tokens"@);
        },
    }
}


// ---------------------------------------------------------------------------
// Requests to the ZCode account pool
// ---------------------------------------------------------------------------

/// `{"type": "text", "text": <t>}`.
pub open spec fn text_part(t: Seq<char>) -> Json {
    Json::Obj(seq![("type"@, Json::Str("text"@)), ("text"@, Json::Str(t))])
}

/// A message whose content is a string gets it as a single text part.
pub open spec fn zcode_message(m: Json) -> Json {
    match m {
        Json::Obj(ms) => match member(ms, "content"@) {
            Some(Json::Str(t)) => Json::Obj(set_member(ms, "content"@, Json::Arr(seq![text_part(t)]))),
            _ => m,
        },
        _ => m,
    }
}

/// The request as ZCode takes it: the model in ZCode's spelling and string
/// contents as text parts; everything else unchanged.
pub open spec fn zcode_body(req: Json) -> Json {
    match req {
        Json::Obj(ms) => {
            let ms1 = match member(ms, "model"@) {
                Some(Json::Str(m)) => set_member(ms, "model"@, Json::Str(zcode_model(m))),
                _ => ms,
            };
            let ms2 = match member(ms1, "messages"@) {
                Some(Json::Arr(items)) => set_member(
                    ms1,
                    "messages"@,
                    Json::Arr(items.map_values(|m: Json| zcode_message(m))),
                ),
                _ => ms1,
            };
            Json::Obj(ms2)
        },
        _ => req,
    }
}

/// Rewriting a message changes only a string `content`, into one text part.
pub proof fn law_zcode_message_changes(m: Json)
    ensures
        !(m is Obj) ==> zcode_message(m) == m,
        m matches Json::Obj(ms) ==> (zcode_message(m) matches Json::Obj(rs) && (forall|k: Seq<char>|
            k != "content"@ ==> #[trigger] member(rs, k) == member(ms, k)) && member(rs, "content"@) == match member(
            ms,
            "content"@,
        ) {
            Some(Json::Str(t)) => Some(Json::Arr(seq![text_part(t)])),
            other => other,
        }),
{
    if let Json::Obj(ms) = m {
        if let Some(Json::Str(t)) = member(ms, "content"@) {
            let v = Json::Arr(seq![text_part(t)]);
            crate::json::law_get_after_set(ms, "content"@, v);
            assert forall|k: Seq<char>| k != "content"@ implies #[trigger] member(set_member(ms, "content"@, v), k)
                == member(ms, k) by {
                crate::json::law_set_keeps_others(ms, "content"@, k, v);
            }
        }
    }
}

/// Rewriting a message twice is rewriting it once.
pub proof fn law_zcode_message_idempotent(m: Json)
    ensures
        zcode_message(zcode_message(m)) == zcode_message(m),
{
    law_zcode_message_changes(m);
}

proof fn lemma_model_key_differs()
    ensures
        "model"@ != "messages"@,
{
    reveal_strlit("model");
    reveal_strlit("messages");
    assert("model"@.len() != "messages"@.len());
}

/// The ZCode body differs from the request only in a string `model`, which
/// is spelled the ZCode way, and in the `messages` array, each message
/// rewritten by `zcode_message`; every other member is unchanged, and a
/// request that is not an object is left as it is.
pub proof fn law_zcode_body_changes(req: Json)
    ensures
        !(req is Obj) ==> zcode_body(req) == req,
        req matches Json::Obj(ms) ==> (zcode_body(req) matches Json::Obj(rs) && (forall|k: Seq<char>|
            k != "model"@ && k != "messages"@ ==> #[trigger] member(rs, k) == member(ms, k)) && member(rs, "model"@)
            == match member(ms, "model"@) {
            Some(Json::Str(m)) => Some(Json::Str(zcode_model(m))),
            other => other,
        } && member(rs, "messages"@) == match member(ms, "messages"@) {
            Some(Json::Arr(items)) => Some(Json::Arr(items.map_values(|m: Json| zcode_message(m)))),
            other => other,
        }),
{
    lemma_model_key_differs();
    if let Json::Obj(ms) = req {
        let ms1 = match member(ms, "model"@) {
            Some(Json::Str(m)) => set_member(ms, "model"@, Json::Str(zcode_model(m))),
            _ => ms,
        };
        if let Some(Json::Str(m)) = member(ms, "model"@) {
            let v = Json::Str(zcode_model(m));
            crate::json::law_get_after_set(ms, "model"@, v);
            assert forall|k: Seq<char>| k != "model"@ implies #[trigger] member(ms1, k) == member(ms, k) by {
                crate::json::law_set_keeps_others(ms, "model"@, k, v);
            }
        }
        assert(forall|k: Seq<char>| k != "model"@ ==> #[trigger] member(ms1, k) == member(ms, k));
        if let Some(Json::Arr(items)) = member(ms1, "messages"@) {
            let v = Json::Arr(items.map_values(|m: Json| zcode_message(m)));
            crate::json::law_get_after_set(ms1, "messages"@, v);
            assert forall|k: Seq<char>| k != "messages"@ implies #[trigger] member(set_member(ms1, "messages"@, v), k)
                == member(ms1, k) by {
                crate::json::law_set_keeps_others(ms1, "messages"@, k, v);
            }
        }
    }
}

/// Rewriting a request for ZCode twice is rewriting it once.
pub proof fn law_zcode_body_idempotent(req: Json)
    ensures
        zcode_body(zcode_body(req)) == zcode_body(req),
{
    lemma_model_key_differs();
    law_zcode_body_changes(req);
    if let Json::Obj(ms) = req {
        let r = zcode_body(req);
        let rs = match r { Json::Obj(rs) => rs, _ => Seq::empty() };
        law_zcode_body_changes(r);
        if let Some(Json::Str(m)) = member(rs, "model"@) {
            lemma_model_spelled(ms, m);
            crate::json::lemma_set_existing(rs, "model"@, Json::Str(zcode_model(m)));
        }
        let rs1 = match member(rs, "model"@) {
            Some(Json::Str(m)) => set_member(rs, "model"@, Json::Str(zcode_model(m))),
            _ => rs,
        };
        assert(rs1 == rs);
        if let Some(Json::Arr(items)) = member(rs, "messages"@) {
            let again = items.map_values(|m: Json| zcode_message(m));
            assert forall|i: int| 0 <= i < items.len() implies #[trigger] again[i] == items[i] by {
                let orig = match member(ms, "messages"@) { Some(Json::Arr(o)) => o, _ => Seq::empty() };
                assert(items == orig.map_values(|m: Json| zcode_message(m)));
                law_zcode_message_idempotent(orig[i]);
            }
            assert(again =~= items);
            crate::json::lemma_set_existing(rs, "messages"@, Json::Arr(items));
        }
    }
}

proof fn lemma_model_spelled(ms: Seq<(Seq<char>, Json)>, m: Seq<char>)
    requires
        member(ms, "model"@) matches Some(Json::Str(x)) && zcode_model(x) == m,
    ensures
        zcode_model(m) == m,
{
    let x = match member(ms, "model"@) { Some(Json::Str(x)) => x, _ => Seq::empty() };
    crate::gateway::law_zcode_model_idempotent(x);
}

fn object_members(v: &JsonValue) -> (r: Vec<(String, JsonValue)>)
    requires
        v.model() is Obj,
    ensures
        Json::Obj(members_of(r@)) == v.model(),
{
    match v.copy() {
        JsonValue::Object(ms) => ms,
        _ => Vec::new(),
    }
}

fn text_part_value(t: &String) -> (r: JsonValue)
    ensures
        r.model() == text_part(t@),
{
    let ms = vec![(owned("type"), JsonValue::Str(owned("text"))), (owned("text"), JsonValue::Str(t.clone()))];
    proof {
        lemma_members_of(ms@);
        assert(members_of(ms@) =~= seq![("type"@, Json::Str("text"@)), ("text"@, Json::Str(t@))]);
    }
    JsonValue::Object(ms)
}

fn zcode_message_value(m: &JsonValue) -> (r: JsonValue)
    ensures
        r.model() == zcode_message(m.model()),
{
    match m {
        JsonValue::Object(_) => match m.get("content") {
            Some(JsonValue::Str(t)) => {
                let mut ms = object_members(m);
                let part = text_part_value(t);
                let ghost pm = part.model();
                let parts = vec![part];
                proof {
                    lemma_models_of(parts@);
                    assert(models_of(parts@) =~= seq![pm]);
                }
                set_field(&mut ms, "content", JsonValue::Array(parts));
                JsonValue::Object(ms)
            },
            _ => m.copy(),
        },
        _ => m.copy(),
    }
}

/// The request body sent to the ZCode account pool.
pub fn normalize_zcode_body(request: &JsonValue) -> (r: JsonValue)
    ensures
        r.model() == zcode_body(request.model()),
{
    match request {
        JsonValue::Object(_) => {
            let mut ms = object_members(request);
            let ghost m0 = members_of(ms@);
            match request.get("model") {
                Some(JsonValue::Str(m)) => {
                    let z = normalize_zcode_model(m.as_str());
                    set_field(&mut ms, "model", JsonValue::Str(z));
                },
                _ => {},
            }
            let ghost m1 = members_of(ms@);
            proof {
                lemma_members_of(ms@);
            }
            match crate::json::find_member(&ms, "messages") {
                Some(i) => {
                    proof {
                        crate::json::lemma_first_key_unique(
                            m1,
                            "messages"@,
                            i as int,
                            choose|k: int| crate::json::first_key_at(m1, "messages"@, k),
                        );
                    }
                    let cur = ms[i].1.copy();
                    match cur {
                        JsonValue::Array(items) => {
                            let mut out: Vec<JsonValue> = Vec::new();
                            let n = items.len();
                            proof {
                                lemma_models_of(items@);
                            }
                            for k in 0..n
                                invariant
                                    n == items@.len(),
                                    models_of(items@).len() == n,
                                    forall|j: int|
                                        0 <= j < n ==> #[trigger] models_of(items@)[j] == items@[j].model(),
                                    models_of(out@).len() == k,
                                    forall|j: int|
                                        0 <= j < k ==> #[trigger] models_of(out@)[j] == zcode_message(
                                            models_of(items@)[j],
                                        ),
                            {
                                let z = zcode_message_value(&items[k]);
                                let ghost before = out@;
                                out.push(z);
                                proof {
                                    lemma_models_of(before);
                                    lemma_models_of(out@);
                                    assert forall|j: int| 0 <= j < k + 1 implies #[trigger] models_of(out@)[j]
                                        == zcode_message(models_of(items@)[j]) by {
                                        if j < k {
                                            assert(out@[j] == before[j]);
                                            assert(models_of(before)[j] == before[j].model());
                                        }
                                    }
                                }
                            }
                            proof {
                                lemma_models_of(out@);
                                assert(models_of(out@) =~= models_of(items@).map_values(
                                    |m: Json| zcode_message(m),
                                ));
                            }
                            set_field(&mut ms, "messages", JsonValue::Array(out));
                        },
                        _ => {},
                    }
                },
                None => {},
            }
            JsonValue::Object(ms)
        },
        _ => request.copy(),
    }
}

} // verus!
