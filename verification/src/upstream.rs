//! Upstream selection: which ZCode accounts and custom providers a request
//! is tried against, in which order, and the model list the gateway offers.

use vstd::prelude::*;
use crate::gateway::{endpoint_url, error_json, model_id, normalize_model_id, ErrorReply};
use crate::json::{as_text, field, owned, JsonValue};
use crate::text::{chars_of, extend_chars, string_of};

verus! {

/// The wire format a custom provider speaks.
#[derive(Clone, Copy, Debug, PartialEq, Eq, Structural)]
pub enum ApiFormat {
    OpenAI,
    Anthropic,
}

/// An enabled custom provider.
pub struct CustomProvider {
    pub id: String,
    pub name: String,
    pub api_format: ApiFormat,
    pub base_url: String,
    pub models: Vec<String>,
}

/// The model of a custom provider.
pub struct ProviderView {
    pub id: Seq<char>,
    pub name: Seq<char>,
    pub api_format: ApiFormat,
    pub base_url: Seq<char>,
    pub models: Seq<Seq<char>>,
}

impl View for CustomProvider {
    type V = ProviderView;

    open spec fn view(&self) -> ProviderView {
        ProviderView {
            id: self.id@,
            name: self.name@,
            api_format: self.api_format,
            base_url: self.base_url@,
            models: self.models@.map_values(|m: String| m@),
        }
    }
}

/// Copies of a list of strings.
pub fn copy_strings(v: &Vec<String>) -> (r: Vec<String>)
    ensures
        r@.map_values(|m: String| m@) == v@.map_values(|m: String| m@),
{
    let mut out: Vec<String> = Vec::new();
    let n = v.len();
    for i in 0..n
        invariant
            n == v@.len(),
            out@.len() == i,
            forall|k: int| 0 <= k < i ==> #[trigger] out@[k]@ == v@[k]@,
    {
        out.push(v[i].clone());
    }
    assert(out@.map_values(|m: String| m@) =~= v@.map_values(|m: String| m@));
    out
}

impl CustomProvider {
    /// An independent copy.
    pub fn duplicate(&self) -> (r: CustomProvider)
        ensures
            r@ == self@,
    {
        CustomProvider {
            id: self.id.clone(),
            name: self.name.clone(),
            api_format: self.api_format,
            base_url: self.base_url.clone(),
            models: copy_strings(&self.models),
        }
    }
}

/// An enabled account-pool profile: its name, its login mode, and the JWT
/// read from its stored credentials when there is one.
pub struct PoolProfile {
    pub name: String,
    pub mode: String,
    pub token: Option<String>,
}

pub struct PoolView {
    pub name: Seq<char>,
    pub mode: Seq<char>,
    pub token: Option<Seq<char>>,
}

impl View for PoolProfile {
    type V = PoolView;

    open spec fn view(&self) -> PoolView {
        PoolView {
            name: self.name@,
            mode: self.mode@,
            token: match &self.token {
                Some(t) => Some(t@),
                None => None,
            },
        }
    }
}

/// Where a request can be sent.
pub enum Upstream {
    /// A ZCode account, by its profile name and JWT.
    ZcodeJwt { name: String, token: String },
    /// A custom provider with its API key and the endpoint to post to.
    CustomProvider { provider: CustomProvider, api_key: String, url: String },
}

pub enum UpstreamView {
    ZcodeJwt { name: Seq<char>, token: Seq<char> },
    CustomProvider { provider: ProviderView, api_key: Seq<char>, url: Seq<char> },
}

impl View for Upstream {
    type V = UpstreamView;

    open spec fn view(&self) -> UpstreamView {
        match self {
            Upstream::ZcodeJwt { name, token } => UpstreamView::ZcodeJwt { name: name@, token: token@ },
            Upstream::CustomProvider { provider, api_key, url } => UpstreamView::CustomProvider {
                provider: provider@,
                api_key: api_key@,
                url: url@,
            },
        }
    }
}

/// A provider with its API key.
pub type ProviderEntry = (ProviderView, Seq<char>);

/// The endpoint for a provider: chat completions for OpenAI, messages for
/// Anthropic.
pub open spec fn provider_url(p: ProviderView) -> Seq<char> {
    if p.api_format == ApiFormat::OpenAI {
        endpoint_url(p.base_url, "/chat/completions"@)
    } else {
        endpoint_url(p.base_url, "/messages"@)
    }
}

pub open spec fn provider_route(e: ProviderEntry) -> UpstreamView {
    UpstreamView::CustomProvider { provider: e.0, api_key: e.1, url: provider_url(e.0) }
}

/// The upstream for a custom provider.
pub fn custom_provider_upstream(provider: CustomProvider, api_key: String) -> (r: Upstream)
    ensures
        r@ == provider_route((provider@, api_key@)),
{
    let url = match provider.api_format {
        ApiFormat::OpenAI => crate::gateway::openai_chat_url(provider.base_url.as_str()),
        ApiFormat::Anthropic => crate::gateway::messages_url(provider.base_url.as_str()),
    };
    Upstream::CustomProvider { provider, api_key, url }
}


// ---------------------------------------------------------------------------
// Choosing upstreams
// ---------------------------------------------------------------------------

/// A profile logs in with OAuth; an empty mode means OAuth.
pub open spec fn is_oauth(mode: Seq<char>) -> bool {
    mode.len() == 0 || mode == "oauth"@
}

/// The ZCode accounts to try: OAuth profiles whose credentials hold a JWT,
/// in pool order.
pub open spec fn account_routes(pool: Seq<PoolView>) -> Seq<UpstreamView>
    decreases pool.len(),
{
    if pool.len() == 0 {
        Seq::empty()
    } else {
        let p = pool.last();
        account_routes(pool.drop_last()) + if is_oauth(p.mode) && p.token is Some {
            seq![UpstreamView::ZcodeJwt { name: p.name, token: p.token->0 }]
        } else {
            Seq::<UpstreamView>::empty()
        }
    }
}

/// A provider offers the requested model; with no model named, every one does.
pub open spec fn serves(p: ProviderView, model: Seq<char>) -> bool {
    model.len() == 0 || p.models.contains(model)
}

/// The providers that offer the model, in order.
pub open spec fn serving(ps: Seq<ProviderEntry>, model: Seq<char>) -> Seq<ProviderEntry>
    decreases ps.len(),
{
    if ps.len() == 0 {
        Seq::empty()
    } else {
        serving(ps.drop_last(), model) + if serves(ps.last().0, model) {
            seq![ps.last()]
        } else {
            Seq::<ProviderEntry>::empty()
        }
    }
}

pub open spec fn entry_ids(ps: Seq<ProviderEntry>) -> Seq<Seq<char>> {
    ps.map_values(|e: ProviderEntry| e.0.id)
}

/// The Anthropic providers whose id is not used yet, each id taken once,
/// in order.
pub open spec fn anthropic_rest(ps: Seq<ProviderEntry>, used: Seq<Seq<char>>) -> Seq<ProviderEntry>
    decreases ps.len(),
{
    if ps.len() == 0 {
        Seq::empty()
    } else {
        let e = ps[0];
        if e.0.api_format == ApiFormat::Anthropic && !used.contains(e.0.id) {
            seq![e] + anthropic_rest(ps.drop_first(), used.push(e.0.id))
        } else {
            anthropic_rest(ps.drop_first(), used)
        }
    }
}

/// The providers whose id is not in `used`, in order.
pub open spec fn unused(ps: Seq<ProviderEntry>, used: Seq<Seq<char>>) -> Seq<ProviderEntry>
    decreases ps.len(),
{
    if ps.len() == 0 {
        Seq::empty()
    } else {
        unused(ps.drop_last(), used) + if !used.contains(ps.last().0.id) {
            seq![ps.last()]
        } else {
            Seq::<ProviderEntry>::empty()
        }
    }
}

/// Providers in the order they are tried: those offering the model, then
/// the remaining Anthropic ones, then all the rest.
pub open spec fn provider_order(ps: Seq<ProviderEntry>, model: Seq<char>) -> Seq<ProviderEntry> {
    let p1 = serving(ps, model);
    let p2 = anthropic_rest(ps, entry_ids(p1));
    let p3 = unused(ps, entry_ids(p1) + entry_ids(p2));
    p1 + p2 + p3
}

/// No two providers share an id.
pub open spec fn distinct_ids(ps: Seq<ProviderEntry>) -> bool {
    forall|i: int, j: int| 0 <= i < j < ps.len() ==> #[trigger] ps[i].0.id != #[trigger] ps[j].0.id
}

proof fn lemma_distinct_drop_last(ps: Seq<ProviderEntry>)
    requires
        ps.len() > 0,
        distinct_ids(ps),
    ensures
        distinct_ids(ps.drop_last()),
        forall|x: ProviderEntry| #[trigger] ps.drop_last().contains(x) ==> x.0.id != ps.last().0.id,
{
    let d = ps.drop_last();
    assert forall|i: int, j: int| 0 <= i < j < d.len() implies #[trigger] d[i].0.id != #[trigger] d[j].0.id by {
        assert(d[i] == ps[i] && d[j] == ps[j]);
    }
    assert forall|x: ProviderEntry| d.contains(x) implies x.0.id != ps.last().0.id by {
        let k = choose|k: int| 0 <= k < d.len() && d[k] == x;
        assert(ps[k] == x);
        assert(ps[k].0.id != ps[ps.len() - 1].0.id);
    }
}

proof fn lemma_distinct_drop_first(ps: Seq<ProviderEntry>)
    requires
        ps.len() > 0,
        distinct_ids(ps),
    ensures
        distinct_ids(ps.drop_first()),
        forall|k: int| 0 <= k < ps.drop_first().len() ==> #[trigger] ps.drop_first()[k].0.id != ps[0].0.id,
{
    let d = ps.drop_first();
    assert forall|i: int, j: int| 0 <= i < j < d.len() implies #[trigger] d[i].0.id != #[trigger] d[j].0.id by {
        assert(d[i] == ps[i + 1] && d[j] == ps[j + 1]);
    }
    assert forall|k: int| 0 <= k < d.len() implies #[trigger] d[k].0.id != ps[0].0.id by {
        assert(d[k] == ps[k + 1]);
        assert(ps[0].0.id != ps[k + 1].0.id);
    }
}

/// Two providers of a list without repeated ids that share an id are one.
proof fn lemma_same_id(ps: Seq<ProviderEntry>, a: ProviderEntry, b: ProviderEntry)
    requires
        distinct_ids(ps),
        ps.contains(a),
        ps.contains(b),
        a.0.id == b.0.id,
    ensures
        a == b,
{
    let i = choose|i: int| 0 <= i < ps.len() && ps[i] == a;
    let j = choose|j: int| 0 <= j < ps.len() && ps[j] == b;
    if i < j {
        assert(ps[i].0.id != ps[j].0.id);
    } else if j < i {
        assert(ps[j].0.id != ps[i].0.id);
    }
}

proof fn lemma_ids_contains(q: Seq<ProviderEntry>, x: ProviderEntry)
    requires
        q.contains(x),
    ensures
        entry_ids(q).contains(x.0.id),
{
    let k = choose|k: int| 0 <= k < q.len() && q[k] == x;
    assert(entry_ids(q)[k] == x.0.id);
}

proof fn lemma_ids_member(q: Seq<ProviderEntry>, id: Seq<char>) -> (x: ProviderEntry)
    requires
        entry_ids(q).contains(id),
    ensures
        q.contains(x),
        x.0.id == id,
{
    let k = choose|k: int| 0 <= k < entry_ids(q).len() && entry_ids(q)[k] == id;
    assert(q[k].0.id == id);
    q[k]
}

proof fn lemma_serving(ps: Seq<ProviderEntry>, model: Seq<char>)
    ensures
        forall|x: ProviderEntry| #[trigger] serving(ps, model).contains(x) ==> ps.contains(x) && serves(x.0, model),
        forall|k: int| 0 <= k < ps.len() && serves(ps[k].0, model) ==> serving(ps, model).contains(#[trigger] ps[k]),
        distinct_ids(ps) ==> distinct_ids(serving(ps, model)),
    decreases ps.len(),
{
    if ps.len() > 0 {
        let d = ps.drop_last();
        lemma_serving(d, model);
        let sd = serving(d, model);
        let tail = if serves(ps.last().0, model) { seq![ps.last()] } else { Seq::<ProviderEntry>::empty() };
        let sp = serving(ps, model);
        assert(sp == sd + tail);
        assert forall|x: ProviderEntry| sp.contains(x) implies ps.contains(x) && serves(x.0, model) by {
            let k = choose|k: int| 0 <= k < sp.len() && sp[k] == x;
            if k < sd.len() {
                assert(sd[k] == x);
                assert(sd.contains(x));
                let j = choose|j: int| 0 <= j < d.len() && d[j] == x;
                assert(ps[j] == x);
            } else {
                assert(x == ps[ps.len() - 1]);
            }
        }
        assert forall|k: int| 0 <= k < ps.len() && serves(ps[k].0, model) implies sp.contains(#[trigger] ps[k]) by {
            if k < d.len() {
                assert(d[k] == ps[k]);
                assert(sd.contains(ps[k]));
                let j = choose|j: int| 0 <= j < sd.len() && sd[j] == ps[k];
                assert(sp[j] == ps[k]);
            } else {
                assert(sp[sd.len() as int] == ps[k]);
            }
        }
        if distinct_ids(ps) {
            lemma_distinct_drop_last(ps);
            assert forall|i: int, j: int| 0 <= i < j < sp.len() implies #[trigger] sp[i].0.id != #[trigger] sp[j].0.id by {
                assert(sp[i] == sd[i]);
                if j >= sd.len() {
                    assert(sp[j] == ps.last());
                    assert(sd.contains(sd[i]));
                    assert(d.contains(sd[i]));
                } else {
                    assert(sp[j] == sd[j]);
                }
            }
        }
    }
}

proof fn lemma_unused(ps: Seq<ProviderEntry>, used: Seq<Seq<char>>)
    ensures
        forall|x: ProviderEntry| #[trigger] unused(ps, used).contains(x) ==> ps.contains(x) && !used.contains(x.0.id),
        forall|k: int| 0 <= k < ps.len() && !used.contains(ps[k].0.id) ==> unused(ps, used).contains(#[trigger] ps[k]),
        distinct_ids(ps) ==> distinct_ids(unused(ps, used)),
    decreases ps.len(),
{
    if ps.len() > 0 {
        let d = ps.drop_last();
        lemma_unused(d, used);
        let sd = unused(d, used);
        let tail = if !used.contains(ps.last().0.id) { seq![ps.last()] } else { Seq::<ProviderEntry>::empty() };
        let sp = unused(ps, used);
        assert(sp == sd + tail);
        assert forall|x: ProviderEntry| sp.contains(x) implies ps.contains(x) && !used.contains(x.0.id) by {
            let k = choose|k: int| 0 <= k < sp.len() && sp[k] == x;
            if k < sd.len() {
                assert(sd[k] == x);
                assert(sd.contains(x));
                let j = choose|j: int| 0 <= j < d.len() && d[j] == x;
                assert(ps[j] == x);
            } else {
                assert(x == ps[ps.len() - 1]);
            }
        }
        assert forall|k: int| 0 <= k < ps.len() && !used.contains(ps[k].0.id) implies sp.contains(#[trigger] ps[k]) by {
            if k < d.len() {
                assert(d[k] == ps[k]);
                assert(sd.contains(ps[k]));
                let j = choose|j: int| 0 <= j < sd.len() && sd[j] == ps[k];
                assert(sp[j] == ps[k]);
            } else {
                assert(sp[sd.len() as int] == ps[k]);
            }
        }
        if distinct_ids(ps) {
            lemma_distinct_drop_last(ps);
            assert forall|i: int, j: int| 0 <= i < j < sp.len() implies #[trigger] sp[i].0.id != #[trigger] sp[j].0.id by {
                assert(sp[i] == sd[i]);
                if j >= sd.len() {
                    assert(sp[j] == ps.last());
                    assert(sd.contains(sd[i]));
                    assert(d.contains(sd[i]));
                } else {
                    assert(sp[j] == sd[j]);
                }
            }
        }
    }
}

proof fn lemma_anthropic_rest(ps: Seq<ProviderEntry>, used: Seq<Seq<char>>)
    ensures
        forall|x: ProviderEntry| #[trigger] anthropic_rest(ps, used).contains(x) ==> ps.contains(x) && !used.contains(x.0.id)
            && x.0.api_format == ApiFormat::Anthropic,
        distinct_ids(ps) ==> forall|k: int| 0 <= k < ps.len() && ps[k].0.api_format == ApiFormat::Anthropic
            && !used.contains(ps[k].0.id) ==> anthropic_rest(ps, used).contains(#[trigger] ps[k]),
        distinct_ids(anthropic_rest(ps, used)),
    decreases ps.len(),
{
    let r = anthropic_rest(ps, used);
    if ps.len() == 0 {
        assert(r =~= Seq::<ProviderEntry>::empty());
    } else {
        let e = ps[0];
        let d = ps.drop_first();
        let taken = e.0.api_format == ApiFormat::Anthropic && !used.contains(e.0.id);
        let u2 = if taken { used.push(e.0.id) } else { used };
        lemma_anthropic_rest(d, u2);
        let rd = anthropic_rest(d, u2);
        assert(r == if taken { seq![e] + rd } else { rd });
        assert forall|x: ProviderEntry| r.contains(x) implies ps.contains(x) && !used.contains(x.0.id)
            && x.0.api_format == ApiFormat::Anthropic by {
            if taken && x == e {
                assert(ps[0] == x);
            } else {
                assert(rd.contains(x)) by {
                    let k = choose|k: int| 0 <= k < r.len() && r[k] == x;
                    if taken {
                        assert(rd[k - 1] == x);
                    } else {
                        assert(rd[k] == x);
                    }
                }
                let j = choose|j: int| 0 <= j < d.len() && d[j] == x;
                assert(ps[j + 1] == x);
                assert(!u2.contains(x.0.id));
                if used.contains(x.0.id) {
                    let i = choose|i: int| 0 <= i < used.len() && used[i] == x.0.id;
                    assert(u2[i] == x.0.id);
                }
            }
        }
        if distinct_ids(ps) {
            lemma_distinct_drop_first(ps);
            assert forall|k: int| 0 <= k < ps.len() && ps[k].0.api_format == ApiFormat::Anthropic
                && !used.contains(ps[k].0.id) implies r.contains(#[trigger] ps[k]) by {
                if k == 0 {
                    assert(r[0] == e);
                } else {
                    assert(d[k - 1] == ps[k]);
                    assert(!u2.contains(ps[k].0.id)) by {
                        if taken && u2.contains(ps[k].0.id) {
                            let i = choose|i: int| 0 <= i < u2.len() && u2[i] == ps[k].0.id;
                            if i < used.len() {
                                assert(used[i] == ps[k].0.id);
                            } else {
                                assert(d[k - 1].0.id != ps[0].0.id);
                            }
                        }
                    }
                    assert(rd.contains(d[k - 1]));
                    let j = choose|j: int| 0 <= j < rd.len() && rd[j] == d[k - 1];
                    if taken {
                        assert(r[j + 1] == ps[k]);
                    } else {
                        assert(r[j] == ps[k]);
                    }
                }
            }
        }
        if taken {
            assert forall|i: int, j: int| 0 <= i < j < r.len() implies #[trigger] r[i].0.id != #[trigger] r[j].0.id by {
                if i == 0 {
                    assert(r[j] == rd[j - 1]);
                    assert(rd.contains(rd[j - 1]));
                    assert(!u2.contains(rd[j - 1].0.id));
                    assert(u2[used.len() as int] == e.0.id);
                } else {
                    assert(r[i] == rd[i - 1] && r[j] == rd[j - 1]);
                }
            }
        }
    }
}

/// With no two providers sharing an id, every provider is tried, none
/// twice, and nothing else is: the order is a rearrangement of the
/// providers.
pub proof fn law_every_provider_once(ps: Seq<ProviderEntry>, model: Seq<char>)
    requires
        distinct_ids(ps),
    ensures
        forall|x: ProviderEntry| ps.contains(x) <==> provider_order(ps, model).contains(x),
        distinct_ids(provider_order(ps, model)),
{
    let p1 = serving(ps, model);
    let u1 = entry_ids(p1);
    let p2 = anthropic_rest(ps, u1);
    let u2 = entry_ids(p1) + entry_ids(p2);
    let p3 = unused(ps, u2);
    let o = provider_order(ps, model);
    assert(o == p1 + p2 + p3);
    lemma_serving(ps, model);
    lemma_anthropic_rest(ps, u1);
    lemma_unused(ps, u2);
    assert forall|x: ProviderEntry| ps.contains(x) <==> o.contains(x) by {
        if ps.contains(x) {
            let k = choose|k: int| 0 <= k < ps.len() && ps[k] == x;
            if serves(x.0, model) {
                assert(p1.contains(ps[k]));
                let j = choose|j: int| 0 <= j < p1.len() && p1[j] == x;
                assert(o[j] == x);
            } else {
                assert(!u1.contains(x.0.id)) by {
                    if u1.contains(x.0.id) {
                        let y = lemma_ids_member(p1, x.0.id);
                        lemma_same_id(ps, x, y);
                    }
                }
                if x.0.api_format == ApiFormat::Anthropic {
                    assert(p2.contains(ps[k]));
                    let j = choose|j: int| 0 <= j < p2.len() && p2[j] == x;
                    assert(o[p1.len() + j] == x);
                } else {
                    assert(!entry_ids(p2).contains(x.0.id)) by {
                        if entry_ids(p2).contains(x.0.id) {
                            let y = lemma_ids_member(p2, x.0.id);
                            lemma_same_id(ps, x, y);
                        }
                    }
                    assert(!u2.contains(x.0.id)) by {
                        if u2.contains(x.0.id) {
                            let i = choose|i: int| 0 <= i < u2.len() && u2[i] == x.0.id;
                            if i < u1.len() {
                                assert(u1[i] == x.0.id);
                            } else {
                                assert(entry_ids(p2)[i - u1.len()] == x.0.id);
                            }
                        }
                    }
                    assert(p3.contains(ps[k]));
                    let j = choose|j: int| 0 <= j < p3.len() && p3[j] == x;
                    assert(o[p1.len() + p2.len() + j] == x);
                }
            }
        }
        if o.contains(x) {
            let k = choose|k: int| 0 <= k < o.len() && o[k] == x;
            if k < p1.len() {
                assert(p1[k] == x);
                assert(p1.contains(x));
            } else if k < p1.len() + p2.len() {
                assert(p2[k - p1.len()] == x);
                assert(p2.contains(x));
            } else {
                assert(p3[k - p1.len() - p2.len()] == x);
                assert(p3.contains(x));
            }
        }
    }
    assert forall|i: int, j: int| 0 <= i < j < o.len() implies #[trigger] o[i].0.id != #[trigger] o[j].0.id by {
        let n1 = p1.len() as int;
        let n2 = p2.len() as int;
        if j < n1 {
            assert(o[i] == p1[i] && o[j] == p1[j]);
        } else if j < n1 + n2 {
            assert(o[j] == p2[j - n1]);
            assert(p2.contains(p2[j - n1]));
            if i < n1 {
                assert(o[i] == p1[i]);
                lemma_ids_contains(p1, p1[i]);
            } else {
                assert(o[i] == p2[i - n1]);
            }
        } else {
            assert(o[j] == p3[j - n1 - n2]);
            assert(p3.contains(p3[j - n1 - n2]));
            let y = o[j];
            assert(!u2.contains(y.0.id));
            if i < n1 {
                assert(o[i] == p1[i]);
                lemma_ids_contains(p1, p1[i]);
                let t = choose|t: int| 0 <= t < u1.len() && u1[t] == p1[i].0.id;
                assert(u2[t] == p1[i].0.id);
            } else if i < n1 + n2 {
                assert(o[i] == p2[i - n1]);
                lemma_ids_contains(p2, p2[i - n1]);
                let t = choose|t: int| 0 <= t < entry_ids(p2).len() && entry_ids(p2)[t] == p2[i - n1].0.id;
                assert(u2[u1.len() + t] == p2[i - n1].0.id);
            } else {
                assert(o[i] == p3[i - n1 - n2]);
            }
        }
    }
}

/// Every upstream to try for a request for `model`, in order.
pub open spec fn planned_routes(pool: Seq<PoolView>, ps: Seq<ProviderEntry>, model: Seq<char>) -> Seq<UpstreamView> {
    account_routes(pool) + provider_order(ps, model).map_values(|e: ProviderEntry| provider_route(e))
}

/// The model a request names, without any provider prefix; empty if none.
pub open spec fn requested_model(req: crate::json::Json) -> Seq<char> {
    match as_text(field(req, "model"@)) {
        Some(m) => model_id(m),
        None => model_id(Seq::empty()),
    }
}

pub open spec fn pool_views(pool: Seq<PoolProfile>) -> Seq<PoolView> {
    pool.map_values(|p: PoolProfile| p@)
}

pub open spec fn entry_views(ps: Seq<(CustomProvider, String)>) -> Seq<ProviderEntry> {
    ps.map_values(|e: (CustomProvider, String)| (e.0@, e.1@))
}

pub open spec fn upstream_views(us: Seq<Upstream>) -> Seq<UpstreamView> {
    us.map_values(|u: Upstream| u@)
}

/// The message when neither an account nor a provider is available.
pub open spec fn no_upstream_message() -> Seq<char> {
    "No enabled account pool entry or custom provider"@
}

/// Whether `mode` is an OAuth login.
pub fn is_oauth_mode(mode: &str) -> (r: bool)
    ensures
        r == is_oauth(mode@),
{
    mode.is_empty() || crate::json::str_eq(mode, "oauth")
}

fn offers_model(p: &CustomProvider, model: &String) -> (r: bool)
    ensures
        r == serves(p@, model@),
{
    if model.as_str().is_empty() {
        return true;
    }
    let n = p.models.len();
    for k in 0..n
        invariant
            n == p.models@.len(),
            forall|j: int| 0 <= j < k ==> p.models@[j]@ != model@,
    {
        if p.models[k] == *model {
            assert(p@.models[k as int] == model@);
            return true;
        }
    }
    assert(!p@.models.contains(model@));
    false
}

fn id_used(used: &Vec<String>, id: &String) -> (r: bool)
    ensures
        r == used@.map_values(|s: String| s@).contains(id@),
{
    let n = used.len();
    for k in 0..n
        invariant
            n == used@.len(),
            forall|j: int| 0 <= j < k ==> used@[j]@ != id@,
    {
        if used[k] == *id {
            assert(used@.map_values(|s: String| s@)[k as int] == id@);
            return true;
        }
    }
    false
}

fn push_route(out: &mut Vec<Upstream>, e: &(CustomProvider, String))
    ensures
        upstream_views(final(out)@) == upstream_views(old(out)@).push(provider_route((e.0@, e.1@))),
{
    let u = custom_provider_upstream(e.0.duplicate(), e.1.clone());
    out.push(u);
    assert(upstream_views(out@) =~= upstream_views(old(out)@).push(provider_route((e.0@, e.1@))));
}

/// The upstreams for a request, given the enabled account pool (or the
/// error reading it) and the enabled providers with their keys.
pub fn choose_upstreams(
    request: &JsonValue,
    pool: Result<Vec<PoolProfile>, String>,
    providers: &Vec<(CustomProvider, String)>,
) -> (r: Result<Vec<Upstream>, ErrorReply>)
    ensures
        match pool {
            Err(e) => r matches Err(reply) && reply.status == 502 && !reply.event_stream
                && reply.payload.model() == error_json("provider_error"@, e@),
            Ok(ps) => {
                let plan = planned_routes(
                    pool_views(ps@),
                    entry_views(providers@),
                    requested_model(request.model()),
                );
                &&& plan.len() == 0 ==> (r matches Err(reply) && reply.status == 502 && !reply.event_stream
                    && reply.payload.model() == error_json("provider_error"@, no_upstream_message()))
                &&& plan.len() > 0 ==> (r matches Ok(us) && upstream_views(us@) == plan)
            },
        },
{
    let model = match request.get("model") {
        Some(JsonValue::Str(m)) => normalize_model_id(m.as_str()),
        _ => normalize_model_id(""),
    };
    proof {
        reveal_strlit("");
        assert(""@ =~= Seq::<char>::empty());
    }
    let pool = match pool {
        Ok(p) => p,
        Err(e) => {
            return Err(crate::gateway::provider_error_response(false, 502, "provider_error", e.as_str()));
        },
    };
    let ghost pv = pool_views(pool@);
    let ghost ev = entry_views(providers@);
    let ghost m = model@;
    let mut out: Vec<Upstream> = Vec::new();
    let n = pool.len();
    for i in 0..n
        invariant
            n == pool@.len(),
            pv == pool_views(pool@),
            upstream_views(out@) == account_routes(pv.take(i as int)),
    {
        assert(pv.take(i + 1).drop_last() == pv.take(i as int));
        assert(pv.take(i + 1).last() == pool@[i as int]@);
        let p = &pool[i];
        if is_oauth_mode(p.mode.as_str()) {
            match &p.token {
                Some(t) => {
                    let ghost before = out@;
                    out.push(Upstream::ZcodeJwt { name: p.name.clone(), token: t.clone() });
                    assert(upstream_views(out@) =~= upstream_views(before) + seq![
                        UpstreamView::ZcodeJwt { name: p.name@, token: t@ },
                    ]);
                },
                None => {
                    assert(upstream_views(out@) =~= upstream_views(out@) + Seq::<UpstreamView>::empty());
                },
            }
        } else {
            assert(upstream_views(out@) =~= upstream_views(out@) + Seq::<UpstreamView>::empty());
        }
    }
    assert(pv.take(n as int) == pv);
    let ghost acc = upstream_views(out@);
    let k = providers.len();
    let mut used: Vec<String> = Vec::new();
    for i in 0..k
        invariant
            k == providers@.len(),
            ev == entry_views(providers@),
            m == model@,
            upstream_views(out@) == acc + serving(ev.take(i as int), m).map_values(
                |e: ProviderEntry| provider_route(e),
            ),
            used@.map_values(|s: String| s@) == entry_ids(serving(ev.take(i as int), m)),
    {
        assert(ev.take(i + 1).drop_last() == ev.take(i as int));
        assert(ev.take(i + 1).last() == (providers@[i as int].0@, providers@[i as int].1@));
        let ghost before_out = upstream_views(out@);
        let ghost before_used = used@.map_values(|s: String| s@);
        let ghost s0 = serving(ev.take(i as int), m);
        let e = &providers[i];
        if offers_model(&e.0, &model) {
            push_route(&mut out, e);
            used.push(e.0.id.clone());
            assert(serving(ev.take(i + 1), m) == s0.push((e.0@, e.1@)));
            assert(s0.push((e.0@, e.1@)).map_values(|e: ProviderEntry| provider_route(e))
                =~= s0.map_values(|e: ProviderEntry| provider_route(e)).push(provider_route((e.0@, e.1@))));
            assert(used@.map_values(|s: String| s@) =~= before_used.push(e.0.id@));
            assert(entry_ids(s0.push((e.0@, e.1@))) =~= entry_ids(s0).push(e.0.id@));
        } else {
            assert(serving(ev.take(i + 1), m) =~= s0);
        }
    }
    assert(ev.take(k as int) == ev);
    let ghost p1 = serving(ev, m);
    let ghost u1 = entry_ids(p1);
    let ghost acc1 = upstream_views(out@);
    assert(ev.skip(0) == ev);
    let ghost mut p2acc: Seq<ProviderEntry> = Seq::empty();
    for i in 0..k
        invariant
            k == providers@.len(),
            ev == entry_views(providers@),
            anthropic_rest(ev, u1) == p2acc + anthropic_rest(ev.skip(i as int), used@.map_values(|s: String| s@)),
            used@.map_values(|s: String| s@) == u1 + entry_ids(p2acc),
            upstream_views(out@) == acc1 + p2acc.map_values(|e: ProviderEntry| provider_route(e)),
    {
        let ghost rest = ev.skip(i as int);
        assert(rest.drop_first() == ev.skip(i + 1));
        assert(rest[0] == (providers@[i as int].0@, providers@[i as int].1@));
        let ghost before_used = used@.map_values(|s: String| s@);
        let e = &providers[i];
        let is_anthropic = match e.0.api_format {
            ApiFormat::Anthropic => true,
            ApiFormat::OpenAI => false,
        };
        if is_anthropic && !id_used(&used, &e.0.id) {
            push_route(&mut out, e);
            used.push(e.0.id.clone());
            proof {
                let x = (e.0@, e.1@);
                assert(anthropic_rest(rest, before_used) == seq![x] + anthropic_rest(ev.skip(i + 1), before_used.push(e.0.id@)));
                assert(p2acc + (seq![x] + anthropic_rest(ev.skip(i + 1), before_used.push(e.0.id@)))
                    =~= p2acc.push(x) + anthropic_rest(ev.skip(i + 1), before_used.push(e.0.id@)));
                assert(used@.map_values(|s: String| s@) =~= before_used.push(e.0.id@));
                assert(entry_ids(p2acc.push(x)) =~= entry_ids(p2acc).push(e.0.id@));
                assert(u1 + entry_ids(p2acc).push(e.0.id@) =~= (u1 + entry_ids(p2acc)).push(e.0.id@));
                assert(p2acc.push(x).map_values(|e: ProviderEntry| provider_route(e))
                    =~= p2acc.map_values(|e: ProviderEntry| provider_route(e)).push(provider_route(x)));
                p2acc = p2acc.push(x);
            }
        } else {
            assert(anthropic_rest(rest, before_used) == anthropic_rest(ev.skip(i + 1), before_used));
        }
    }
    proof {
        assert(ev.skip(k as int).len() == 0);
        assert(anthropic_rest(ev.skip(k as int), used@.map_values(|s: String| s@)) == Seq::<ProviderEntry>::empty());
        assert(p2acc + Seq::<ProviderEntry>::empty() =~= p2acc);
    }
    let ghost p2 = anthropic_rest(ev, u1);
    let ghost u2 = used@.map_values(|s: String| s@);
    let ghost acc2 = upstream_views(out@);
    for i in 0..k
        invariant
            k == providers@.len(),
            ev == entry_views(providers@),
            u2 == used@.map_values(|s: String| s@),
            upstream_views(out@) == acc2 + unused(ev.take(i as int), u2).map_values(
                |e: ProviderEntry| provider_route(e),
            ),
    {
        assert(ev.take(i + 1).drop_last() == ev.take(i as int));
        assert(ev.take(i + 1).last() == (providers@[i as int].0@, providers@[i as int].1@));
        let ghost s0 = unused(ev.take(i as int), u2);
        let e = &providers[i];
        if !id_used(&used, &e.0.id) {
            push_route(&mut out, e);
            assert(unused(ev.take(i + 1), u2) == s0.push((e.0@, e.1@)));
            assert(s0.push((e.0@, e.1@)).map_values(|e: ProviderEntry| provider_route(e))
                =~= s0.map_values(|e: ProviderEntry| provider_route(e)).push(provider_route((e.0@, e.1@))));
        } else {
            assert(unused(ev.take(i + 1), u2) =~= s0);
        }
    }
    assert(ev.take(k as int) == ev);
    proof {
        let p3 = unused(ev, u2);
        assert((p1 + p2 + p3).map_values(|e: ProviderEntry| provider_route(e)) =~= p1.map_values(
            |e: ProviderEntry| provider_route(e),
        ) + p2.map_values(|e: ProviderEntry| provider_route(e)) + p3.map_values(
            |e: ProviderEntry| provider_route(e),
        ));
        assert(upstream_views(out@) =~= planned_routes(pv, ev, m));
    }
    if out.len() == 0 {
        return Err(
            crate::gateway::provider_error_response(
                false,
                502,
                "provider_error",
                "No enabled account pool entry or custom provider",
            ),
        );
    }
    Ok(out)
}


// ---------------------------------------------------------------------------
// Model list
// ---------------------------------------------------------------------------

/// One entry of the gateway's model list.
pub struct ModelItem {
    pub id: String,
    pub item_type: String,
    pub display_name: String,
    pub provider: String,
}

pub struct ModelItemView {
    pub id: Seq<char>,
    pub item_type: Seq<char>,
    pub display_name: Seq<char>,
    pub provider: Seq<char>,
}

impl View for ModelItem {
    type V = ModelItemView;

    open spec fn view(&self) -> ModelItemView {
        ModelItemView {
            id: self.id@,
            item_type: self.item_type@,
            display_name: self.display_name@,
            provider: self.provider@,
        }
    }
}

pub open spec fn model_item(id: Seq<char>, display_name: Seq<char>, provider: Seq<char>) -> ModelItemView {
    ModelItemView { id, item_type: "model"@, display_name, provider }
}

/// The models every provider lists, provider by provider, each under its
/// own name.
pub open spec fn provider_items(ps: Seq<ProviderEntry>) -> Seq<ModelItemView>
    decreases ps.len(),
{
    if ps.len() == 0 {
        Seq::empty()
    } else {
        let p = ps.last().0;
        provider_items(ps.drop_last()) + p.models.map_values(|m: Seq<char>| model_item(m, m, p.name))
    }
}

/// The model list: the two account-pool models when the pool has accounts,
/// then every provider's models.
pub open spec fn model_list(has_accounts: bool, ps: Seq<ProviderEntry>) -> Seq<ModelItemView> {
    (if has_accounts {
        seq![
            model_item("glm-5.3-flash"@, "GLM-5.3 Flash"@, "ZCode account pool"@),
            model_item("glm-5.3"@, "GLM-5.3"@, "ZCode account pool"@),
        ]
    } else {
        Seq::<ModelItemView>::empty()
    }) + provider_items(ps)
}

fn new_item(id: String, display_name: String, provider: String) -> (r: ModelItem)
    ensures
        r@ == model_item(id@, display_name@, provider@),
{
    ModelItem { id, item_type: owned("model"), display_name, provider }
}

/// The models the gateway offers.
pub fn list_models(has_accounts: bool, providers: &Vec<(CustomProvider, String)>) -> (r: Vec<ModelItem>)
    ensures
        r@.map_values(|i: ModelItem| i@) == model_list(has_accounts, entry_views(providers@)),
{
    let mut out: Vec<ModelItem> = Vec::new();
    if has_accounts {
        out.push(new_item(owned("glm-5.3-flash"), owned("GLM-5.3 Flash"), owned("ZCode account pool")));
        out.push(new_item(owned("glm-5.3"), owned("GLM-5.3"), owned("ZCode account pool")));
    }
    let ghost head = out@.map_values(|i: ModelItem| i@);
    assert(head =~= (if has_accounts {
        seq![
            model_item("glm-5.3-flash"@, "GLM-5.3 Flash"@, "ZCode account pool"@),
            model_item("glm-5.3"@, "GLM-5.3"@, "ZCode account pool"@),
        ]
    } else {
        Seq::<ModelItemView>::empty()
    }));
    let ghost ev = entry_views(providers@);
    let n = providers.len();
    for i in 0..n
        invariant
            n == providers@.len(),
            ev == entry_views(providers@),
            out@.map_values(|i: ModelItem| i@) == head + provider_items(ev.take(i as int)),
    {
        assert(ev.take(i + 1).drop_last() == ev.take(i as int));
        assert(ev.take(i + 1).last() == (providers@[i as int].0@, providers@[i as int].1@));
        let p = &providers[i].0;
        let ghost base = out@.map_values(|i: ModelItem| i@);
        let ghost pm = p@.models.map_values(|m: Seq<char>| model_item(m, m, p@.name));
        let k = p.models.len();
        for j in 0..k
            invariant
                k == p.models@.len(),
                pm == p@.models.map_values(|m: Seq<char>| model_item(m, m, p@.name)),
                out@.map_values(|i: ModelItem| i@) == base + pm.take(j as int),
        {
            let ghost before = out@;
            out.push(new_item(p.models[j].clone(), p.models[j].clone(), p.name.clone()));
            assert(pm.take(j + 1) =~= pm.take(j as int).push(pm[j as int]));
            assert(out@.map_values(|i: ModelItem| i@) =~= before.map_values(|i: ModelItem| i@).push(
                pm[j as int],
            ));
        }
        assert(pm.take(k as int) =~= pm);
        assert(base + pm =~= head + (provider_items(ev.take(i as int)) + pm));
    }
    assert(ev.take(n as int) == ev);
    out
}

/// `x` is the list item of some model of some provider in `ps`, under that
/// provider's name.
pub open spec fn is_provider_model(ps: Seq<ProviderEntry>, x: ModelItemView) -> bool {
    exists|i: int, j: int|
        0 <= i < ps.len() && 0 <= j < ps[i].0.models.len() && x == model_item(
            ps[i].0.models[j],
            ps[i].0.models[j],
            ps[i].0.name,
        )
}

/// The provider items hold each model of each provider, under that
/// provider's name, and nothing else.
proof fn lemma_provider_items(ps: Seq<ProviderEntry>)
    ensures
        forall|i: int, j: int|
            #![trigger ps[i].0.models[j]]
            0 <= i < ps.len() && 0 <= j < ps[i].0.models.len() ==> provider_items(ps).contains(
                model_item(ps[i].0.models[j], ps[i].0.models[j], ps[i].0.name),
            ),
        forall|k: int| 0 <= k < provider_items(ps).len() ==> is_provider_model(ps, #[trigger] provider_items(ps)[k]),
    decreases ps.len(),
{
    if ps.len() > 0 {
        let q = ps.drop_last();
        let p = ps.last().0;
        let pq = provider_items(q);
        let tail = p.models.map_values(|m: Seq<char>| model_item(m, m, p.name));
        lemma_provider_items(q);
        let all = provider_items(ps);
        assert(all == pq + tail);
        assert forall|i: int, j: int|
            #![trigger ps[i].0.models[j]]
            0 <= i < ps.len() && 0 <= j < ps[i].0.models.len() implies all.contains(
                model_item(ps[i].0.models[j], ps[i].0.models[j], ps[i].0.name),
            ) by {
            let x = model_item(ps[i].0.models[j], ps[i].0.models[j], ps[i].0.name);
            if i < ps.len() - 1 {
                assert(q[i] == ps[i]);
                assert(q[i].0.models[j] == ps[i].0.models[j]);
                assert(pq.contains(x));
                let k = choose|k: int| 0 <= k < pq.len() && pq[k] == x;
                assert(all[k] == x);
            } else {
                assert(tail[j] == x);
                assert(all[pq.len() + j] == x);
            }
        }
        assert forall|k: int| 0 <= k < all.len() implies is_provider_model(ps, #[trigger] all[k]) by {
            if k < pq.len() {
                assert(all[k] == pq[k]);
                assert(is_provider_model(q, pq[k]));
                let (i, j) = choose|i: int, j: int|
                    0 <= i < q.len() && 0 <= j < q[i].0.models.len() && pq[k] == model_item(
                        q[i].0.models[j],
                        q[i].0.models[j],
                        q[i].0.name,
                    );
                assert(q[i] == ps[i]);
                assert(ps[i].0.models[j] == q[i].0.models[j]);
            } else {
                let j = k - pq.len();
                assert(all[k] == tail[j]);
                assert(ps[ps.len() - 1].0.models[j] == p.models[j]);
                assert(all[k] == model_item(
                    ps[ps.len() - 1].0.models[j],
                    ps[ps.len() - 1].0.models[j],
                    ps[ps.len() - 1].0.name,
                ));
            }
        }
    }
}

/// When the pool has accounts, the list is the two pool models (`glm-5.3-flash`
/// and `glm-5.3`) followed by exactly the list given when it has none.
pub proof fn law_model_list_pool_first(ps: Seq<ProviderEntry>)
    ensures
        model_list(true, ps) == seq![
            model_item("glm-5.3-flash"@, "GLM-5.3 Flash"@, "ZCode account pool"@),
            model_item("glm-5.3"@, "GLM-5.3"@, "ZCode account pool"@),
        ] + model_list(false, ps),
        model_list(false, ps).len() == model_list(true, ps).len() - 2,
{
    assert(model_list(false, ps) =~= provider_items(ps));
}

/// Every model of every provider is listed, under that provider's name,
/// whether or not the pool has accounts; and without accounts nothing else is
/// listed.
pub proof fn law_model_list_providers(has_accounts: bool, ps: Seq<ProviderEntry>)
    ensures
        forall|i: int, j: int|
            #![trigger ps[i].0.models[j]]
            0 <= i < ps.len() && 0 <= j < ps[i].0.models.len() ==> model_list(has_accounts, ps).contains(
                model_item(ps[i].0.models[j], ps[i].0.models[j], ps[i].0.name),
            ),
        forall|k: int|
            0 <= k < model_list(false, ps).len() ==> is_provider_model(ps, #[trigger] model_list(false, ps)[k]),
{
    lemma_provider_items(ps);
    let head = if has_accounts {
        seq![
            model_item("glm-5.3-flash"@, "GLM-5.3 Flash"@, "ZCode account pool"@),
            model_item("glm-5.3"@, "GLM-5.3"@, "ZCode account pool"@),
        ]
    } else {
        Seq::<ModelItemView>::empty()
    };
    let pi = provider_items(ps);
    assert(model_list(has_accounts, ps) == head + pi);
    assert(model_list(false, ps) =~= pi);
    assert forall|i: int, j: int|
        #![trigger ps[i].0.models[j]]
        0 <= i < ps.len() && 0 <= j < ps[i].0.models.len() implies model_list(has_accounts, ps).contains(
            model_item(ps[i].0.models[j], ps[i].0.models[j], ps[i].0.name),
        ) by {
        let x = model_item(ps[i].0.models[j], ps[i].0.models[j], ps[i].0.name);
        assert(pi.contains(x));
        let k = choose|k: int| 0 <= k < pi.len() && pi[k] == x;
        assert((head + pi)[head.len() + k] == x);
    }
}


// ---------------------------------------------------------------------------
// Request headers
// ---------------------------------------------------------------------------

pub open spec fn header_views(hs: Seq<(String, String)>) -> Seq<(Seq<char>, Seq<char>)> {
    hs.map_values(|h: (String, String)| (h.0@, h.1@))
}

/// The headers of a request to a ZCode account.
pub open spec fn zcode_headers(token: Seq<char>, captcha_param: Seq<char>) -> Seq<(Seq<char>, Seq<char>)> {
    seq![
        ("content-type"@, "application/json"@),
        ("authorization"@, "Bearer "@ + token),
        ("anthropic-version"@, "2023-06-01"@),
        ("user-agent"@, "ZCode/3.0.1"@),
        ("x-zcode-app-version"@, "3.0.1"@),
        ("x-zcode-agent"@, "glm"@),
        ("http-referer"@, "https://zcode.z.ai/"@),
        ("x-aliyun-captcha-verify-param"@, captcha_param),
    ]
}

/// The headers of a request to a custom provider. An Anthropic provider gets
/// the client's `anthropic-version` (or `2023-06-01` when the client sent
/// none) and `anthropic-beta`; `version` and `beta` are the client's header
/// values where they are text.
pub open spec fn provider_headers(
    format: ApiFormat,
    api_key: Seq<char>,
    version_present: bool,
    version: Option<Seq<char>>,
    beta: Option<Seq<char>>,
) -> Seq<(Seq<char>, Seq<char>)> {
    seq![("content-type"@, "application/json"@)] + if format == ApiFormat::OpenAI {
        seq![("authorization"@, "Bearer "@ + api_key)]
    } else {
        seq![("x-api-key"@, api_key)] + (if !version_present {
            seq![("anthropic-version"@, "2023-06-01"@)]
        } else {
            Seq::empty()
        }) + (match version {
            Some(v) => seq![("anthropic-version"@, v)],
            None => Seq::empty(),
        }) + (match beta {
            Some(b) => seq![("anthropic-beta"@, b)],
            None => Seq::empty(),
        })
    }
}

fn header(name: &str, value: String) -> (r: (String, String))
    ensures
        r.0@ == name@,
        r.1@ == value@,
{
    (owned(name), value)
}

fn bearer(token: &str) -> (r: String)
    ensures
        r@ == "Bearer "@ + token@,
{
    let mut v = chars_of("Bearer ");
    extend_chars(&mut v, chars_of(token).as_slice());
    string_of(v.as_slice())
}

/// The headers of a request to a ZCode account.
pub fn zcode_request_headers(token: &str, captcha_param: &str) -> (r: Vec<(String, String)>)
    ensures
        header_views(r@) == zcode_headers(token@, captcha_param@),
{
    let r = vec![
        header("content-type", owned("application/json")),
        header("authorization", bearer(token)),
        header("anthropic-version", owned("2023-06-01")),
        header("user-agent", owned("ZCode/3.0.1")),
        header("x-zcode-app-version", owned("3.0.1")),
        header("x-zcode-agent", owned("glm")),
        header("http-referer", owned("https://zcode.z.ai/")),
        header("x-aliyun-captcha-verify-param", owned(captcha_param)),
    ];
    assert(header_views(r@) =~= zcode_headers(token@, captcha_param@));
    r
}

/// The headers of a request to a custom provider.
pub fn provider_request_headers(
    format: ApiFormat,
    api_key: &str,
    version_present: bool,
    version: Option<&str>,
    beta: Option<&str>,
) -> (r: Vec<(String, String)>)
    ensures
        header_views(r@) == provider_headers(
            format,
            api_key@,
            version_present,
            crate::gateway::header_text(version),
            crate::gateway::header_text(beta),
        ),
{
    let mut r = vec![header("content-type", owned("application/json"))];
    match format {
        ApiFormat::OpenAI => {
            r.push(header("authorization", bearer(api_key)));
        },
        ApiFormat::Anthropic => {
            r.push(header("x-api-key", owned(api_key)));
            if !version_present {
                r.push(header("anthropic-version", owned("2023-06-01")));
            }
            match version {
                Some(v) => r.push(header("anthropic-version", owned(v))),
                None => {},
            }
            match beta {
                Some(b) => r.push(header("anthropic-beta", owned(b))),
                None => {},
            }
        },
    }
    assert(header_views(r@) =~= provider_headers(
        format,
        api_key@,
        version_present,
        crate::gateway::header_text(version),
        crate::gateway::header_text(beta),
    ));
    r
}

} // verus!
