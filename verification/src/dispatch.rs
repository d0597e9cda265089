//! Dispatch of a messages request over its upstreams.
//!
//! The gateway tries the upstreams in order. A ZCode account is tried with a
//! fresh captcha parameter each time, up to three times while ZCode answers
//! with a captcha rejection; a custom provider is tried once. The first
//! reply that is not a rejection is relayed. When every upstream fails the
//! client gets an error that says whether captcha checks were the cause.
//!
//! The network work is the caller's: `start` and `step` decide, from the
//! state and what the last piece of work gave, what to do next.

use vstd::prelude::*;
use crate::gateway::{captcha_rejection, error_json, is_captcha_response, provider_error_response, ErrorReply};
use crate::json::{owned, Json};
use crate::text::{chars_of, extend_chars, string_of};
use crate::upstream::{upstream_views, Upstream, UpstreamView};

verus! {

/// What the dispatcher waits for.
#[derive(Clone, Copy, Debug, PartialEq, Eq, Structural)]
pub enum Phase {
    AwaitCaptchaParam,
    AwaitAccountReply,
    AwaitInvalidation,
    AwaitProviderStatus,
    AwaitProviderBody,
    Done,
}

/// The dispatcher's state.
pub struct Dispatch {
    pub stream: bool,
    pub phase: Phase,
    /// The upstream being tried.
    pub current: usize,
    /// Captcha rejections of the current account so far.
    pub attempt: usize,
    /// Captcha troubles so far: failed parameter requests and rejections.
    pub captcha_count: usize,
    pub last_error: Option<String>,
}

pub struct DispatchView {
    pub stream: bool,
    pub phase: Phase,
    pub current: int,
    pub attempt: int,
    pub captcha_count: int,
    pub last_error: Option<Seq<char>>,
}

impl View for Dispatch {
    type V = DispatchView;

    open spec fn view(&self) -> DispatchView {
        DispatchView {
            stream: self.stream,
            phase: self.phase,
            current: self.current as int,
            attempt: self.attempt as int,
            captcha_count: self.captcha_count as int,
            last_error: match &self.last_error {
                Some(e) => Some(e@),
                None => None,
            },
        }
    }
}

/// What the caller does next.
pub enum Action {
    /// Ask for a captcha parameter for the account `upstream`.
    FetchCaptchaParam { upstream: usize },
    /// Post the ZCode body to the account `upstream` with this parameter.
    SendToAccount { upstream: usize, captcha_param: String },
    /// Drop the cached captcha parameter.
    InvalidateCaptchaParam,
    /// Post the request to the custom provider `upstream`.
    SendToProvider { upstream: usize },
    /// Read the whole body of the provider's reply.
    ReadProviderBody,
    /// Relay the upstream's status, content type and body; `streaming`
    /// relays the body as it arrives.
    RelayReply { streaming: bool },
    /// Answer with this error.
    Fail(ErrorReply),
}

pub enum ActionView {
    FetchCaptchaParam { upstream: int },
    SendToAccount { upstream: int, captcha_param: Seq<char> },
    InvalidateCaptchaParam,
    SendToProvider { upstream: int },
    ReadProviderBody,
    RelayReply { streaming: bool },
    Fail { status: u16, event_stream: bool, payload: Json },
}

impl View for Action {
    type V = ActionView;

    open spec fn view(&self) -> ActionView {
        match self {
            Action::FetchCaptchaParam { upstream } => ActionView::FetchCaptchaParam { upstream: *upstream as int },
            Action::SendToAccount { upstream, captcha_param } => ActionView::SendToAccount {
                upstream: *upstream as int,
                captcha_param: captcha_param@,
            },
            Action::InvalidateCaptchaParam => ActionView::InvalidateCaptchaParam,
            Action::SendToProvider { upstream } => ActionView::SendToProvider { upstream: *upstream as int },
            Action::ReadProviderBody => ActionView::ReadProviderBody,
            Action::RelayReply { streaming } => ActionView::RelayReply { streaming: *streaming },
            Action::Fail(e) => ActionView::Fail {
                status: e.status,
                event_stream: e.event_stream,
                payload: e.payload.model(),
            },
        }
    }
}

/// What the last piece of work gave.
pub enum Event {
    /// The captcha parameter, or why it could not be had.
    CaptchaParam(Result<String, String>),
    /// The account's status and body, or why sending or reading failed.
    AccountReply(Result<(u16, Vec<u8>), String>),
    /// The cached captcha parameter was dropped.
    CaptchaInvalidated,
    /// The provider's status, or why sending failed.
    ProviderStatus(Result<u16, String>),
    /// Whether the provider's body could be read, and why not.
    ProviderBody(Result<(), String>),
}

pub enum EventView {
    CaptchaParam(Result<Seq<char>, Seq<char>>),
    AccountReply(Result<(u16, Seq<u8>), Seq<char>>),
    CaptchaInvalidated,
    ProviderStatus(Result<u16, Seq<char>>),
    ProviderBody(Result<(), Seq<char>>),
}

impl View for Event {
    type V = EventView;

    open spec fn view(&self) -> EventView {
        match self {
            Event::CaptchaParam(r) => EventView::CaptchaParam(match r {
                Ok(p) => Ok(p@),
                Err(e) => Err(e@),
            }),
            Event::AccountReply(r) => EventView::AccountReply(match r {
                Ok((s, b)) => Ok((*s, b@)),
                Err(e) => Err(e@),
            }),
            Event::CaptchaInvalidated => EventView::CaptchaInvalidated,
            Event::ProviderStatus(r) => EventView::ProviderStatus(match r {
                Ok(s) => Ok(*s),
                Err(e) => Err(e@),
            }),
            Event::ProviderBody(r) => EventView::ProviderBody(match r {
                Ok(()) => Ok(()),
                Err(e) => Err(e@),
            }),
        }
    }
}

/// The most captcha rejections one account gets before the next upstream.
pub const MAX_ACCOUNT_ATTEMPTS: usize = 3;

/// Which upstreams are ZCode accounts.
pub open spec fn account_flags(us: Seq<UpstreamView>) -> Seq<bool> {
    us.map_values(|u: UpstreamView| u is ZcodeJwt)
}

/// The message when captcha checks defeated the account pool.
pub open spec fn captcha_message(last_error: Option<Seq<char>>) -> Seq<char> {
    "ZCode 账号池触发验证码校验，"@ + match last_error {
        Some(e) => "最后一次求参失败："@ + e + "。"@,
        None => "无痕验证参数已发送但上游仍拒绝。"@,
    } + "请稍后重试，或添加外部 API Key 上游作为兜底。"@
}

/// The error when every upstream has failed.
pub open spec fn exhausted_reply(s: DispatchView) -> ActionView {
    if s.captcha_count > 0 {
        ActionView::Fail {
            status: if s.stream { 200 } else { 403 },
            event_stream: s.stream,
            payload: error_json("authentication_error"@, captcha_message(s.last_error)),
        }
    } else {
        ActionView::Fail {
            status: if s.stream { 200 } else { 502 },
            event_stream: s.stream,
            payload: error_json(
                "provider_error"@,
                match s.last_error {
                    Some(e) => e,
                    None => "No available upstream provider"@,
                },
            ),
        }
    }
}

/// Moving on to upstream `i`: ask an account for a captcha parameter, post
/// to a provider, or give up when none is left.
pub open spec fn advance(s: DispatchView, flags: Seq<bool>, i: int) -> (DispatchView, ActionView) {
    if i >= flags.len() {
        (DispatchView { phase: Phase::Done, current: i, attempt: 0, ..s }, exhausted_reply(s))
    } else if flags[i] {
        (
            DispatchView { phase: Phase::AwaitCaptchaParam, current: i, attempt: 0, ..s },
            ActionView::FetchCaptchaParam { upstream: i },
        )
    } else {
        (
            DispatchView { phase: Phase::AwaitProviderStatus, current: i, attempt: 0, ..s },
            ActionView::SendToProvider { upstream: i },
        )
    }
}

/// A count that stops at the largest `usize`.
pub open spec fn bump(n: int) -> int {
    if n < usize::MAX {
        n + 1
    } else {
        n
    }
}

/// The event fits what the dispatcher waits for.
pub open spec fn expects(s: DispatchView, e: EventView) -> bool {
    match s.phase {
        Phase::AwaitCaptchaParam => e is CaptchaParam,
        Phase::AwaitAccountReply => e is AccountReply,
        Phase::AwaitInvalidation => e is CaptchaInvalidated,
        Phase::AwaitProviderStatus => e is ProviderStatus,
        Phase::AwaitProviderBody => e is ProviderBody,
        Phase::Done => false,
    }
}

/// The next state and action after event `e`.
pub open spec fn transition(s: DispatchView, flags: Seq<bool>, e: EventView) -> (DispatchView, ActionView) {
    match e {
        EventView::CaptchaParam(Ok(p)) => (
            DispatchView { phase: Phase::AwaitAccountReply, ..s },
            ActionView::SendToAccount { upstream: s.current, captcha_param: p },
        ),
        EventView::CaptchaParam(Err(err)) => advance(
            DispatchView { captcha_count: bump(s.captcha_count), last_error: Some(err), ..s },
            flags,
            s.current + 1,
        ),
        EventView::AccountReply(Err(err)) => advance(
            DispatchView { last_error: Some(err), ..s },
            flags,
            s.current + 1,
        ),
        EventView::AccountReply(Ok((status, body))) => if s.stream && status != 403 {
            (DispatchView { phase: Phase::Done, ..s }, ActionView::RelayReply { streaming: false })
        } else if captcha_rejection(status, body) {
            (
                DispatchView {
                    phase: Phase::AwaitInvalidation,
                    attempt: s.attempt + 1,
                    captcha_count: bump(s.captcha_count),
                    ..s
                },
                ActionView::InvalidateCaptchaParam,
            )
        } else {
            (DispatchView { phase: Phase::Done, ..s }, ActionView::RelayReply { streaming: false })
        },
        EventView::CaptchaInvalidated => if s.attempt < MAX_ACCOUNT_ATTEMPTS {
            (
                DispatchView { phase: Phase::AwaitCaptchaParam, ..s },
                ActionView::FetchCaptchaParam { upstream: s.current },
            )
        } else {
            advance(s, flags, s.current + 1)
        },
        EventView::ProviderStatus(Err(err)) => advance(
            DispatchView { last_error: Some(err), ..s },
            flags,
            s.current + 1,
        ),
        EventView::ProviderStatus(Ok(status)) => if s.stream && status != 403 {
            (DispatchView { phase: Phase::Done, ..s }, ActionView::RelayReply { streaming: true })
        } else {
            (DispatchView { phase: Phase::AwaitProviderBody, ..s }, ActionView::ReadProviderBody)
        },
        EventView::ProviderBody(Ok(())) => (
            DispatchView { phase: Phase::Done, ..s },
            ActionView::RelayReply { streaming: false },
        ),
        EventView::ProviderBody(Err(err)) => (
            DispatchView { phase: Phase::Done, ..s },
            ActionView::Fail { status: 502, event_stream: false, payload: error_json("provider_error"@, err) },
        ),
    }
}

/// A state the dispatcher can be in while upstreams `flags` are tried.
pub open spec fn well_formed(s: DispatchView, flags: Seq<bool>) -> bool {
    &&& 0 <= s.attempt <= MAX_ACCOUNT_ATTEMPTS
    &&& 0 <= s.captcha_count <= usize::MAX
    &&& 0 <= s.current <= flags.len()
    &&& s.phase != Phase::Done ==> s.current < flags.len()
    &&& match s.phase {
        Phase::AwaitCaptchaParam => flags[s.current] && s.attempt < MAX_ACCOUNT_ATTEMPTS,
        Phase::AwaitAccountReply => flags[s.current] && s.attempt < MAX_ACCOUNT_ATTEMPTS,
        Phase::AwaitInvalidation => flags[s.current] && s.attempt >= 1,
        Phase::AwaitProviderStatus => !flags[s.current] && s.attempt == 0,
        Phase::AwaitProviderBody => !flags[s.current] && s.attempt == 0,
        Phase::Done => true,
    }
}


/// The state before any upstream is tried.
pub open spec fn initial(stream: bool) -> DispatchView {
    DispatchView {
        stream,
        phase: Phase::Done,
        current: 0,
        attempt: 0,
        captcha_count: 0,
        last_error: None,
    }
}

fn is_account(u: &Upstream) -> (r: bool)
    ensures
        r == (u@ is ZcodeJwt),
{
    match u {
        Upstream::ZcodeJwt { .. } => true,
        _ => false,
    }
}

fn captcha_message_text(last_error: &Option<String>) -> (r: String)
    ensures
        r@ == captcha_message(match last_error {
            Some(e) => Some(e@),
            None => None,
        }),
{
    let mut t = chars_of("ZCode 账号池触发验证码校验，");
    match last_error {
        Some(e) => {
            extend_chars(&mut t, chars_of("最后一次求参失败：").as_slice());
            extend_chars(&mut t, chars_of(e.as_str()).as_slice());
            extend_chars(&mut t, chars_of("。").as_slice());
        },
        None => {
            extend_chars(&mut t, chars_of("无痕验证参数已发送但上游仍拒绝。").as_slice());
        },
    }
    extend_chars(&mut t, chars_of("请稍后重试，或添加外部 API Key 上游作为兜底。").as_slice());
    string_of(t.as_slice())
}

fn exhausted(d: &Dispatch) -> (r: Action)
    ensures
        r@ == exhausted_reply(d@),
{
    if d.captcha_count > 0 {
        let m = captcha_message_text(&d.last_error);
        Action::Fail(provider_error_response(d.stream, 403, "authentication_error", m.as_str()))
    } else {
        match &d.last_error {
            Some(e) => Action::Fail(provider_error_response(d.stream, 502, "provider_error", e.as_str())),
            None => Action::Fail(
                provider_error_response(d.stream, 502, "provider_error", "No available upstream provider"),
            ),
        }
    }
}

fn advance_to(d: &mut Dispatch, upstreams: &Vec<Upstream>, i: usize) -> (r: Action)
    ensures
        (final(d)@, r@) == advance(old(d)@, account_flags(upstream_views(upstreams@)), i as int),
{
    let ghost flags = account_flags(upstream_views(upstreams@));
    if i >= upstreams.len() {
        let a = exhausted(d);
        d.phase = Phase::Done;
        d.current = i;
        d.attempt = 0;
        a
    } else if is_account(&upstreams[i]) {
        assert(flags[i as int]);
        d.phase = Phase::AwaitCaptchaParam;
        d.current = i;
        d.attempt = 0;
        Action::FetchCaptchaParam { upstream: i }
    } else {
        assert(!flags[i as int]);
        d.phase = Phase::AwaitProviderStatus;
        d.current = i;
        d.attempt = 0;
        Action::SendToProvider { upstream: i }
    }
}

/// The first action for a request, streaming or not, over these upstreams.
pub fn start(stream: bool, upstreams: &Vec<Upstream>) -> (r: (Dispatch, Action))
    ensures
        (r.0@, r.1@) == advance(initial(stream), account_flags(upstream_views(upstreams@)), 0),
        well_formed(r.0@, account_flags(upstream_views(upstreams@))),
{
    let mut d = Dispatch {
        stream,
        phase: Phase::Done,
        current: 0,
        attempt: 0,
        captcha_count: 0,
        last_error: None,
    };
    let a = advance_to(&mut d, upstreams, 0);
    (d, a)
}

/// The next action after `event`.
pub fn step(d: &mut Dispatch, upstreams: &Vec<Upstream>, event: Event) -> (r: Action)
    requires
        well_formed(old(d)@, account_flags(upstream_views(upstreams@))),
        expects(old(d)@, event@),
    ensures
        (final(d)@, r@) == transition(old(d)@, account_flags(upstream_views(upstreams@)), event@),
        well_formed(final(d)@, account_flags(upstream_views(upstreams@))),
{
    let ghost flags = account_flags(upstream_views(upstreams@));
    let cur = d.current;
    let n = upstreams.len();
    assert(cur < n);
    match event {
        Event::CaptchaParam(Ok(p)) => {
            d.phase = Phase::AwaitAccountReply;
            Action::SendToAccount { upstream: d.current, captcha_param: p }
        },
        Event::CaptchaParam(Err(err)) => {
            if d.captcha_count < usize::MAX {
                d.captcha_count = d.captcha_count + 1;
            }
            d.last_error = Some(err);
            let next = cur + 1;
            advance_to(d, upstreams, next)
        },
        Event::AccountReply(Err(err)) => {
            d.last_error = Some(err);
            let next = cur + 1;
            advance_to(d, upstreams, next)
        },
        Event::AccountReply(Ok((status, body))) => {
            if d.stream && status != 403 {
                d.phase = Phase::Done;
                Action::RelayReply { streaming: false }
            } else if is_captcha_response(status, body.as_slice()) {
                d.phase = Phase::AwaitInvalidation;
                d.attempt = d.attempt + 1;
                if d.captcha_count < usize::MAX {
                    d.captcha_count = d.captcha_count + 1;
                }
                Action::InvalidateCaptchaParam
            } else {
                d.phase = Phase::Done;
                Action::RelayReply { streaming: false }
            }
        },
        Event::CaptchaInvalidated => {
            if d.attempt < MAX_ACCOUNT_ATTEMPTS {
                d.phase = Phase::AwaitCaptchaParam;
                Action::FetchCaptchaParam { upstream: d.current }
            } else {
                let next = cur + 1;
                advance_to(d, upstreams, next)
            }
        },
        Event::ProviderStatus(Err(err)) => {
            d.last_error = Some(err);
            let next = cur + 1;
            advance_to(d, upstreams, next)
        },
        Event::ProviderStatus(Ok(status)) => {
            if d.stream && status != 403 {
                d.phase = Phase::Done;
                Action::RelayReply { streaming: true }
            } else {
                d.phase = Phase::AwaitProviderBody;
                Action::ReadProviderBody
            }
        },
        Event::ProviderBody(Ok(())) => {
            d.phase = Phase::Done;
            Action::RelayReply { streaming: false }
        },
        Event::ProviderBody(Err(err)) => {
            d.phase = Phase::Done;
            Action::Fail(provider_error_response(false, 502, "provider_error", err.as_str()))
        },
    }
}


// ---------------------------------------------------------------------------
// Laws
// ---------------------------------------------------------------------------

/// The work left: upstreams still to try, rejections the current account
/// may still get, and where in its round the dispatcher is.
pub open spec fn work_left(s: DispatchView, flags: Seq<bool>) -> int {
    if s.phase == Phase::Done {
        0
    } else {
        (flags.len() - s.current) * 16 + (MAX_ACCOUNT_ATTEMPTS - s.attempt) * 4 + match s.phase {
            Phase::AwaitCaptchaParam => 3int,
            Phase::AwaitAccountReply => 2int,
            Phase::AwaitInvalidation => 4int,
            Phase::AwaitProviderStatus => 2int,
            Phase::AwaitProviderBody => 1int,
            Phase::Done => 0int,
        }
    }
}

/// Dispatch always ends: every step either finishes or leaves strictly less
/// work, and the work left is never negative.
pub proof fn law_dispatch_terminates(s: DispatchView, flags: Seq<bool>, e: EventView)
    requires
        well_formed(s, flags),
        expects(s, e),
    ensures
        work_left(s, flags) > 0,
        transition(s, flags, e).0.phase == Phase::Done || (0 < work_left(transition(s, flags, e).0, flags)
            < work_left(s, flags)),
{
}

/// Every step keeps the dispatcher's state well formed; in particular an
/// account is never asked for a captcha parameter after its third
/// rejection, and the upstreams are visited in order.
pub proof fn law_dispatch_state_kept(s: DispatchView, flags: Seq<bool>, e: EventView)
    requires
        well_formed(s, flags),
        expects(s, e),
    ensures
        well_formed(transition(s, flags, e).0, flags),
        transition(s, flags, e).0.current >= s.current,
        transition(s, flags, e).1 matches ActionView::FetchCaptchaParam { upstream } ==> upstream
            == transition(s, flags, e).0.current && transition(s, flags, e).0.attempt
            < MAX_ACCOUNT_ATTEMPTS,
{
}

/// When every upstream has failed and a captcha check was among the causes,
/// the client is told so with an authentication error (403, or 200 with an
/// event stream); otherwise it gets a provider error (502 likewise).
pub proof fn law_exhausted_reply(s: DispatchView)
    ensures
        exhausted_reply(s) matches ActionView::Fail { status, event_stream, payload } && event_stream
            == s.stream && (s.captcha_count > 0 ==> status == (if s.stream { 200u16 } else { 403u16 })
            && payload == error_json("authentication_error"@, captcha_message(s.last_error))) && (
        s.captcha_count <= 0 ==> status == (if s.stream { 200u16 } else { 502u16 })),
{
}

/// The error a failure event carries, for the three failures that move on.
pub open spec fn moving_failure(e: EventView) -> Option<Seq<char>> {
    match e {
        EventView::CaptchaParam(Err(err)) => Some(err),
        EventView::AccountReply(Err(err)) => Some(err),
        EventView::ProviderStatus(Err(err)) => Some(err),
        _ => None,
    }
}

/// A failed captcha-parameter request, a failed account request and a failed
/// provider request each move on to the next upstream, remembering the
/// error: an account is asked for a captcha parameter, a provider is sent
/// the request, and only when no upstream is left does the request fail. A
/// failed captcha-parameter request also counts as a captcha trouble.
pub proof fn law_failure_moves_on(s: DispatchView, flags: Seq<bool>, e: EventView)
    requires
        well_formed(s, flags),
        expects(s, e),
        (moving_failure(e) is Some),
    ensures
        transition(s, flags, e).0.current == s.current + 1,
        transition(s, flags, e).0.last_error == moving_failure(e),
        transition(s, flags, e).0.stream == s.stream,
        transition(s, flags, e).0.captcha_count == (if e is CaptchaParam {
            bump(s.captcha_count)
        } else {
            s.captcha_count
        }),
        (s.current + 1 < flags.len() && flags[s.current + 1]) ==> (transition(s, flags, e).1
            == (ActionView::FetchCaptchaParam { upstream: s.current + 1 }) && transition(s, flags, e).0.phase
            == Phase::AwaitCaptchaParam && transition(s, flags, e).0.attempt == 0),
        (s.current + 1 < flags.len() && !flags[s.current + 1]) ==> (transition(s, flags, e).1
            == (ActionView::SendToProvider { upstream: s.current + 1 }) && transition(s, flags, e).0.phase
            == Phase::AwaitProviderStatus),
        (s.current + 1 >= flags.len()) ==> ((transition(s, flags, e).1 is Fail) && transition(s, flags, e).0.phase
            == Phase::Done),
{
}

} // verus!
