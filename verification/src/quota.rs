//! Reading a subscription's quota: which plan is shown, how a balance entry
//! is labelled, the retry rules of the billing request, and the balance
//! records that ZCode writes to its own log files.

use vstd::prelude::*;
use crate::json::{as_text, field, owned, Json, JsonValue};
use crate::restart::text_of;
use crate::text::{
    chars_of, find_chars, first_occurrence, has_infix, slice_chars, string_of, trim, trim_chars,
    contains,
};

verus! {

// ---------------------------------------------------------------------------
// Balance entries and plans
// ---------------------------------------------------------------------------

/// Member `key` of `v`, trimmed, when it is a string that is not blank.
pub open spec fn text_field(v: Json, key: Seq<char>) -> Option<Seq<char>> {
    match as_text(field(v, key)) {
        Some(s) => if trim(s).len() > 0 {
            Some(trim(s))
        } else {
            None
        },
        None => None,
    }
}

/// Member `key` of `value`, trimmed, when it is a string that is not blank.
pub fn string_field(value: &JsonValue, key: &str) -> (r: Option<String>)
    ensures
        text_of(r) == text_field(value.model(), key@),
{
    match value.get(key) {
        Some(v) => match v.as_str() {
            Some(s) => {
                let cs = chars_of(s);
                let t = trim_chars(cs.as_slice());
                if t.len() > 0 {
                    Some(string_of(t.as_slice()))
                } else {
                    None
                }
            },
            None => None,
        },
        None => None,
    }
}

/// The label of a balance entry: its own `show_name` unless that is blank,
/// else its `name`, else its `entitlement_id`, else `额度`.
pub open spec fn shown_name(v: Json, show_name: Seq<char>) -> Seq<char> {
    if trim(show_name).len() > 0 {
        show_name
    } else {
        match text_field(v, "name"@) {
            Some(n) => n,
            None => match text_field(v, "entitlement_id"@) {
                Some(e) => e,
                None => "额度"@,
            },
        }
    }
}

/// The label shown for the balance entry `value`, whose `show_name` was read
/// as `show_name` (empty when it had none).
pub fn balance_show_name(value: &JsonValue, show_name: &str) -> (r: String)
    ensures
        r@ == shown_name(value.model(), show_name@),
{
    let cs = chars_of(show_name);
    let t = trim_chars(cs.as_slice());
    if t.len() > 0 {
        return owned(show_name);
    }
    match string_field(value, "name") {
        Some(n) => n,
        None => match string_field(value, "entitlement_id") {
            Some(e) => e,
            None => owned("额度"),
        },
    }
}

/// The period of a balance entry: the one it was read with, else its
/// `period` member when that is a string that is not blank.
pub fn balance_period(value: &JsonValue, period: Option<String>) -> (r: Option<String>)
    ensures
        period is Some ==> r == period,
        period is None ==> text_of(r) == text_field(value.model(), "period"@),
{
    match period {
        Some(p) => Some(p),
        None => string_field(value, "period"),
    }
}

/// The rank of a plan: its priority, 0 when it has none.
pub open spec fn plan_rank(p: Option<i64>) -> int {
    match p {
        Some(x) => x as int,
        None => 0,
    }
}

/// Plan `i` has the highest rank, and is the last of those that have it.
pub open spec fn is_best_plan(ps: Seq<Option<i64>>, i: int) -> bool {
    &&& 0 <= i < ps.len()
    &&& forall|j: int| 0 <= j < ps.len() ==> plan_rank(#[trigger] ps[j]) <= plan_rank(ps[i])
    &&& forall|j: int| i < j < ps.len() ==> plan_rank(#[trigger] ps[j]) < plan_rank(ps[i])
}

fn rank_of(p: Option<i64>) -> (r: i64)
    ensures
        r == plan_rank(p),
{
    match p {
        Some(x) => x,
        None => 0,
    }
}

/// The plan shown for an account, given the plans' priorities in the order
/// they were returned: the one with the highest priority (a missing one
/// counts as 0), the last of them on a tie; none when there is no plan.
pub fn best_plan_index(priorities: &Vec<Option<i64>>) -> (r: Option<usize>)
    ensures
        r is None <==> priorities@.len() == 0,
        r matches Some(i) ==> is_best_plan(priorities@, i as int),
{
    let n = priorities.len();
    if n == 0 {
        return None;
    }
    let mut best: usize = 0;
    let mut best_rank = rank_of(priorities[0]);
    for j in 1..n
        invariant
            n == priorities@.len(),
            best < j,
            best_rank == plan_rank(priorities@[best as int]),
            forall|k: int| 0 <= k < j ==> plan_rank(#[trigger] priorities@[k]) <= best_rank,
            forall|k: int| best < k < j ==> plan_rank(#[trigger] priorities@[k]) < best_rank,
    {
        let rk = rank_of(priorities[j]);
        if rk >= best_rank {
            best = j;
            best_rank = rk;
        }
    }
    Some(best)
}

// ---------------------------------------------------------------------------
// Balance records in ZCode's log
// ---------------------------------------------------------------------------

/// What a log line of a finished balance request contains.
pub open spec fn balance_marker() -> Seq<char> {
    "billing/balance 请求完成"@
}

/// What stands right before the logged reply.
pub open spec fn payload_separator() -> Seq<char> {
    "请求完成 "@
}

/// The format of the time stamp at the start of a log line.
pub const LOG_TIME_FORMAT: &'static str = "%Y-%m-%d %H:%M:%S%.3f";

/// Whether a log line records a finished balance request.
pub fn is_balance_log_line(line: &str) -> (r: bool)
    ensures
        r == has_infix(line@, balance_marker()),
{
    let cs = chars_of(line);
    let m = chars_of("billing/balance 请求完成");
    contains(cs.as_slice(), m.as_slice())
}

/// The logged reply of a balance line: the text after the first
/// `请求完成 `, trimmed.
pub open spec fn logged_json(line: Seq<char>) -> Option<Seq<char>> {
    if !has_infix(line, balance_marker()) {
        None
    } else if exists|i: int| first_occurrence(line, payload_separator(), i) {
        let i = choose|i: int| first_occurrence(line, payload_separator(), i);
        Some(trim(line.skip(i + payload_separator().len())))
    } else {
        None
    }
}

proof fn lemma_first_occurrence_unique<T>(s: Seq<T>, p: Seq<T>, i: int, j: int)
    requires
        first_occurrence(s, p, i),
        first_occurrence(s, p, j),
    ensures
        i == j,
{
}

/// The JSON text a balance line carries, when it is one.
pub fn logged_balance_json(line: &str) -> (r: Option<String>)
    ensures
        text_of(r) == logged_json(line@),
{
    if !is_balance_log_line(line) {
        return None;
    }
    let cs = chars_of(line);
    let sep = chars_of("请求完成 ");
    match find_chars(cs.as_slice(), sep.as_slice()) {
        Some(i) => {
            assert(sep@ == payload_separator());
            assert(first_occurrence(line@, payload_separator(), i as int));
            assert(i + sep@.len() <= cs@.len());
            proof {
                let c = choose|k: int| first_occurrence(line@, payload_separator(), k);
                lemma_first_occurrence_unique(line@, payload_separator(), i as int, c);
            }
            let k = sep.len();
            let n = cs.len();
            assert(i + k <= n);
            let rest = slice_chars(cs.as_slice(), i + k, n);
            assert(rest@ == line@.skip(i + payload_separator().len()));
            let t = trim_chars(rest.as_slice());
            Some(string_of(t.as_slice()))
        },
        None => None,
    }
}

/// The time stamp text of a log line `[<time>] ...`: what stands between
/// the opening `[` and the first `]`.
pub open spec fn timestamp_text(line: Seq<char>) -> Option<Seq<char>> {
    if line.len() > 0 && line[0] == '[' {
        let inner = line.skip(1);
        if exists|e: int| first_occurrence(inner, seq![']'], e) {
            Some(inner.take(choose|e: int| first_occurrence(inner, seq![']'], e)))
        } else {
            None
        }
    } else {
        None
    }
}

/// The time stamp text at the start of a log line.
pub fn log_timestamp_text(line: &str) -> (r: Option<String>)
    ensures
        text_of(r) == timestamp_text(line@),
{
    let cs = chars_of(line);
    if cs.len() == 0 || cs[0] != '[' {
        return None;
    }
    let inner = slice_chars(cs.as_slice(), 1, cs.len());
    assert(inner@ == line@.skip(1));
    let close = vec![']'];
    assert(close@ == seq![']']);
    match find_chars(inner.as_slice(), close.as_slice()) {
        Some(e) => {
            proof {
                let c = choose|k: int| first_occurrence(inner@, seq![']'], k);
                lemma_first_occurrence_unique(inner@, seq![']'], e as int, c);
            }
            let t = slice_chars(inner.as_slice(), 0, e);
            assert(t@ == inner@.take(e as int));
            Some(string_of(t.as_slice()))
        },
        None => None,
    }
}

/// File `i` comes before file `j`: it was written later, or at the same
/// time and was listed first.
pub open spec fn written_before(stamps: Seq<u128>, i: int, j: int) -> bool {
    stamps[i] > stamps[j] || (stamps[i] == stamps[j] && i < j)
}

/// `r` lists the `limit` (or all, when fewer) files to read, newest first:
/// distinct indices in order, each before every file left out.
pub open spec fn newest_files(stamps: Seq<u128>, limit: nat, r: Seq<usize>) -> bool {
    &&& r.len() == if limit < stamps.len() { limit } else { stamps.len() }
    &&& forall|k: int| 0 <= k < r.len() ==> #[trigger] r[k] < stamps.len()
    &&& forall|k: int, l: int| 0 <= k < l < r.len() ==> written_before(stamps, #[trigger] r[k] as int, #[trigger] r[l] as int)
    &&& forall|k: int, x: int| 0 <= k < r.len() && 0 <= x < stamps.len() && !r.contains(x as usize)
        ==> #[trigger] written_before(stamps, r[k] as int, x)
}

pub open spec fn count_false(s: Seq<bool>) -> nat
    decreases s.len(),
{
    if s.len() == 0 {
        0
    } else {
        count_false(s.drop_last()) + if s.last() { 0nat } else { 1nat }
    }
}

proof fn lemma_count_false_set(s: Seq<bool>, i: int)
    requires
        0 <= i < s.len(),
        !s[i],
    ensures
        count_false(s.update(i, true)) + 1 == count_false(s),
    decreases s.len(),
{
    let t = s.update(i, true);
    if i == s.len() - 1 {
        assert(t.drop_last() =~= s.drop_last());
    } else {
        lemma_count_false_set(s.drop_last(), i);
        assert(t.drop_last() =~= s.drop_last().update(i, true));
    }
}

proof fn lemma_count_false_all_set(s: Seq<bool>)
    requires
        forall|x: int| 0 <= x < s.len() ==> #[trigger] s[x],
    ensures
        count_false(s) == 0,
    decreases s.len(),
{
    if s.len() > 0 {
        assert(s[s.len() - 1]);
        lemma_count_false_all_set(s.drop_last());
    }
}

/// Which log files to read and in which order: the `limit` most recently
/// written, newest first, given each file's modification time.
pub fn newest_first(stamps: &Vec<u128>, limit: usize) -> (r: Vec<usize>)
    ensures
        newest_files(stamps@, limit as nat, r@),
{
    let n = stamps.len();
    let count = if limit < n { limit } else { n };
    let mut taken: Vec<bool> = Vec::new();
    for i in 0..n
        invariant
            taken@.len() == i,
            forall|k: int| 0 <= k < i ==> !taken@[k],
            count_false(taken@) == i,
    {
        let ghost before = taken@;
        taken.push(false);
        assert(taken@.drop_last() == before);
    }
    let mut r: Vec<usize> = Vec::new();
    while r.len() < count
        invariant
            n == stamps@.len(),
            count <= n,
            count == if limit < n { limit } else { n },
            r@.len() <= count,
            taken@.len() == n,
            count_false(taken@) + r@.len() == n,
            forall|x: int| 0 <= x < n ==> (taken@[x] <==> r@.contains(x as usize)),
            forall|k: int| 0 <= k < r@.len() ==> #[trigger] r@[k] < n,
            forall|k: int, l: int| 0 <= k < l < r@.len() ==> written_before(stamps@, #[trigger] r@[k] as int, #[trigger] r@[l] as int),
            forall|k: int, x: int| 0 <= k < r@.len() && 0 <= x < n && !taken@[x]
                ==> #[trigger] written_before(stamps@, r@[k] as int, x),
        decreases count - r@.len(),
    {
        let mut best: usize = n;
        for j in 0..n
            invariant
                n == stamps@.len(),
                taken@.len() == n,
                best == n || (best < j && !taken@[best as int]),
                forall|x: int| 0 <= x < j && !taken@[x] ==> best < n && (x == best || written_before(stamps@, best as int, x)),
        {
            if !taken[j] {
                if best == n || stamps[j] > stamps[best] {
                    best = j;
                }
            }
        }
        proof {
            if best == n {
                assert forall|x: int| 0 <= x < n implies #[trigger] taken@[x] by {}
                lemma_count_false_all_set(taken@);
            }
        }
        let ghost before_r = r@;
        let ghost before_t = taken@;
        r.push(best);
        taken.set(best, true);
        proof {
            lemma_count_false_set(before_t, best as int);
        }
        assert forall|x: int| 0 <= x < n implies (taken@[x] <==> r@.contains(x as usize)) by {
            if x == best as int {
                assert(r@[r@.len() - 1] == best);
            } else {
                assert(taken@[x] == before_t[x]);
                if before_r.contains(x as usize) {
                    let k = choose|k: int| 0 <= k < before_r.len() && before_r[k] == x as usize;
                    assert(r@[k] == x as usize);
                }
                if r@.contains(x as usize) {
                    let k = choose|k: int| 0 <= k < r@.len() && r@[k] == x as usize;
                    assert(k < before_r.len());
                    assert(before_r[k] == x as usize);
                }
            }
        }
    }
    proof {
        assert forall|k: int, x: int| 0 <= k < r@.len() && 0 <= x < n && !r@.contains(x as usize)
            implies #[trigger] written_before(stamps@, r@[k] as int, x) by {
            assert(!taken@[x]);
        }
    }
    r
}

// ---------------------------------------------------------------------------
// The time stamp of a log line
// ---------------------------------------------------------------------------

#[verifier::external_type_specification]
#[verifier::external_body]
pub struct ExNaiveDateTime(chrono::NaiveDateTime);

/// What `chrono::NaiveDateTime::parse_from_str` gives for a text and a
/// format, when it succeeds.
pub uninterp spec fn naive_time(text: Seq<char>, format: Seq<char>) -> Option<chrono::NaiveDateTime>;

/// Reads a date and time without a time zone (`NaiveDateTime::parse_from_str`,
/// its error dropped). Its result is a function of the text and the format.
#[verifier::external_body]
fn parse_naive_time(text: &str, format: &str) -> (r: Option<chrono::NaiveDateTime>)
    ensures
        r == naive_time(text@, format@),
{
    chrono::NaiveDateTime::parse_from_str(text, format).ok()
}

/// The local date and time a log line starts with, when it starts with a
/// readable `[<date> <time>.<millis>]`.
pub fn logged_line_naive_time(line: &str) -> (r: Option<chrono::NaiveDateTime>)
    ensures
        match timestamp_text(line@) {
            Some(t) => r == naive_time(t, LOG_TIME_FORMAT@),
            None => r is None,
        },
{
    match log_timestamp_text(line) {
        Some(t) => parse_naive_time(t.as_str(), LOG_TIME_FORMAT),
        None => None,
    }
}

// ---------------------------------------------------------------------------
// The billing request and its retries
// ---------------------------------------------------------------------------

pub open spec fn is_digit(c: char) -> bool {
    '0' <= c && c <= '9'
}

pub open spec fn all_digits(s: Seq<char>) -> bool {
    forall|i: int| 0 <= i < s.len() ==> is_digit(#[trigger] s[i])
}

/// The value of a run of decimal digits.
pub open spec fn digits_value(s: Seq<char>) -> nat
    decreases s.len(),
{
    if s.len() == 0 {
        0
    } else {
        digits_value(s.drop_last()) * 10 + ((s.last() as int) - 48) as nat
    }
}

/// `u64::from_str`: an optional `+`, then one or more decimal digits whose
/// value fits in 64 bits.
pub open spec fn u64_value(s: Seq<char>) -> Option<u64> {
    let d = if s.len() > 0 && s[0] == '+' { s.drop_first() } else { s };
    if d.len() > 0 && all_digits(d) && digits_value(d) <= u64::MAX {
        Some(digits_value(d) as u64)
    } else {
        None
    }
}

proof fn lemma_digits_prefix(d: Seq<char>, k: int)
    requires
        all_digits(d),
        0 <= k <= d.len(),
    ensures
        digits_value(d.take(k)) <= digits_value(d),
    decreases d.len(),
{
    if k == d.len() {
        assert(d.take(k) == d);
    } else {
        let e = d.drop_last();
        assert(all_digits(e));
        lemma_digits_prefix(e, k);
        assert(e.take(k) == d.take(k));
        assert(is_digit(d[d.len() - 1]));
    }
}

/// `u64::from_str` on a text.
pub fn parse_u64(s: &[char]) -> (r: Option<u64>)
    ensures
        r == u64_value(s@),
{
    let n = s.len();
    let start: usize = if n > 0 && s[0] == '+' { 1 } else { 0 };
    let ghost d = if s@.len() > 0 && s@[0] == '+' { s@.drop_first() } else { s@ };
    assert(d == s@.subrange(start as int, n as int));
    if start == n {
        return None;
    }
    let mut v: u64 = 0;
    let mut i: usize = start;
    assert(s@.subrange(start as int, start as int).len() == 0);
    while i < n
        invariant
            start <= i <= n,
            n == s@.len(),
            d == s@.subrange(start as int, n as int),
            d == (if s@.len() > 0 && s@[0] == '+' { s@.drop_first() } else { s@ }),
            d.len() > 0,
            all_digits(s@.subrange(start as int, i as int)),
            v == digits_value(s@.subrange(start as int, i as int)),
        decreases n - i,
    {
        let c = s[i];
        if !('0' <= c && c <= '9') {
            assert(d[i - start] == c);
            assert(!all_digits(d));
            return None;
        }
        let dv: u64 = (c as u32 - 48) as u64;
        let ghost pre = s@.subrange(start as int, i + 1);
        assert(pre.drop_last() == s@.subrange(start as int, i as int));
        assert(pre.last() == c);
        assert(digits_value(pre) == v * 10 + dv);
        assert(all_digits(pre));
        assert(pre == d.take(i + 1 - start));
        match v.checked_mul(10) {
            Some(m) => match m.checked_add(dv) {
                Some(w) => {
                    v = w;
                },
                None => {
                    proof {
                        if all_digits(d) {
                            lemma_digits_prefix(d, i + 1 - start);
                        }
                    }
                    return None;
                },
            },
            None => {
                proof {
                    if all_digits(d) {
                        lemma_digits_prefix(d, i + 1 - start);
                    }
                }
                return None;
            },
        }
        i = i + 1;
    }
    Some(v)
}

/// How long to wait before retrying a throttled request: the
/// `Retry-After` seconds, 2 when missing or unreadable, kept within 1..=10.
pub open spec fn retry_wait(header: Option<Seq<char>>) -> u64 {
    let n: u64 = match header {
        Some(h) => match u64_value(trim(h)) {
            Some(v) => v,
            None => 2,
        },
        None => 2,
    };
    if n < 1 {
        1
    } else if n > 10 {
        10
    } else {
        n
    }
}

/// A throttled request never waits less than one second or more than ten.
pub proof fn law_retry_wait_bounded(header: Option<Seq<char>>)
    ensures
        1 <= retry_wait(header) <= 10,
{
}

/// The seconds to wait after a throttled reply with this `Retry-After`.
pub fn retry_after_secs(header: Option<&str>) -> (r: u64)
    ensures
        r == retry_wait(crate::gateway::header_text(header)),
{
    let n: u64 = match header {
        Some(h) => {
            let cs = chars_of(h);
            let t = trim_chars(cs.as_slice());
            match parse_u64(t.as_slice()) {
                Some(v) => v,
                None => 2,
            }
        },
        None => 2,
    };
    if n < 1 {
        1
    } else if n > 10 {
        10
    } else {
        n
    }
}

/// How many times a billing request is tried.
pub const MAX_ATTEMPTS: usize = 2;

/// What one attempt of a request came back with.
pub enum AttemptResult {
    /// A reply with this status code, its `Retry-After` header when it had a
    /// readable one, and the status as it is printed.
    Response { status: u16, retry_after: Option<String>, status_text: String },
    /// No reply: whether the request timed out or could not connect, and
    /// the error as it is printed.
    Failure { timeout_like: bool, message: String },
}

/// What to do after an attempt.
pub enum AttemptStep {
    /// Try again, after waiting this many seconds when there is a wait;
    /// `last_error` is reported if no later attempt does better.
    Retry { wait_secs: Option<u64>, last_error: String },
    /// Use this reply.
    Accept,
    /// Give up with this error.
    Reject(String),
}

pub open spec fn throttled_error(label: Seq<char>) -> Seq<char> {
    label + " 限流重试后仍未恢复"@
}

pub open spec fn status_error(label: Seq<char>, status_text: Seq<char>) -> Seq<char> {
    label + " 状态码 "@ + status_text
}

pub open spec fn timeout_error() -> Seq<char> {
    "请求超时"@
}

pub open spec fn request_error(label: Seq<char>, message: Seq<char>) -> Seq<char> {
    "请求 "@ + label + " 失败："@ + message
}

pub open spec fn exhausted_error(label: Seq<char>) -> Seq<char> {
    label + " 重试后仍未恢复"@
}

fn cat(a: &str, b: &str) -> (r: String)
    ensures
        r@ == a@ + b@,
{
    let mut t = chars_of(a);
    let u = chars_of(b);
    crate::text::extend_chars(&mut t, u.as_slice());
    string_of(t.as_slice())
}

/// The step after attempt number `attempt` (counted from 0) of the request
/// labelled `label`: a 429 reply is retried after its `Retry-After` wait and
/// a timeout or connection failure at once, while attempts remain; any
/// other reply outside 2xx, and any other failure, is an error.
pub fn attempt_step(attempt: usize, label: &str, result: &AttemptResult) -> (r: AttemptStep)
    ensures
        match *result {
            AttemptResult::Response { status, retry_after, status_text } => {
                if status == 429 && attempt + 1 < MAX_ATTEMPTS {
                    r matches AttemptStep::Retry { wait_secs, last_error }
                        && wait_secs == Some(retry_wait(text_of(retry_after)))
                        && last_error@ == throttled_error(label@)
                } else if !(200 <= status && status <= 299) {
                    r matches AttemptStep::Reject(e) && e@ == status_error(label@, status_text@)
                } else {
                    r is Accept
                }
            },
            AttemptResult::Failure { timeout_like, message } => {
                if timeout_like && attempt + 1 < MAX_ATTEMPTS {
                    r matches AttemptStep::Retry { wait_secs, last_error }
                        && wait_secs is None
                        && last_error@ == timeout_error()
                } else if timeout_like {
                    r matches AttemptStep::Reject(e) && e@ == timeout_error()
                } else {
                    r matches AttemptStep::Reject(e) && e@ == request_error(label@, message@)
                }
            },
        },
{
    let more = attempt < MAX_ATTEMPTS - 1;
    match result {
        AttemptResult::Response { status, retry_after, status_text } => {
            if *status == 429 && more {
                let header: Option<&str> = match retry_after {
                    Some(h) => Some(h.as_str()),
                    None => None,
                };
                let wait = retry_after_secs(header);
                AttemptStep::Retry { wait_secs: Some(wait), last_error: cat(label, " 限流重试后仍未恢复") }
            } else if !(200 <= *status && *status <= 299) {
                let head = cat(label, " 状态码 ");
                AttemptStep::Reject(cat(head.as_str(), status_text.as_str()))
            } else {
                AttemptStep::Accept
            }
        },
        AttemptResult::Failure { timeout_like, message } => {
            if *timeout_like && more {
                AttemptStep::Retry { wait_secs: None, last_error: owned("请求超时") }
            } else if *timeout_like {
                AttemptStep::Reject(owned("请求超时"))
            } else {
                let head = cat("请求 ", label);
                let head = cat(head.as_str(), " 失败：");
                AttemptStep::Reject(cat(head.as_str(), message.as_str()))
            }
        },
    }
}

/// The error when every attempt was retried away: the last error recorded,
/// else `<label> 重试后仍未恢复`.
pub fn retries_exhausted(last_error: Option<String>, label: &str) -> (r: String)
    ensures
        last_error is Some ==> Some(r) == last_error,
        last_error is None ==> r@ == exhausted_error(label@),
{
    match last_error {
        Some(e) => e,
        None => cat(label, " 重试后仍未恢复"),
    }
}

// ---------------------------------------------------------------------------
// The billing endpoint
// ---------------------------------------------------------------------------

/// The versions to ask with, each once, in the order first given.
pub open spec fn distinct(s: Seq<Seq<char>>) -> Seq<Seq<char>>
    decreases s.len(),
{
    if s.len() == 0 {
        s
    } else if s.drop_last().contains(s.last()) {
        distinct(s.drop_last())
    } else {
        distinct(s.drop_last()).push(s.last())
    }
}

pub open spec fn texts(s: Seq<String>) -> Seq<Seq<char>> {
    s.map_values(|t: String| t@)
}

/// The app versions the balance is asked for with: the candidates without
/// repeats, each where it first occurs.
pub fn distinct_versions(candidates: &Vec<String>) -> (r: Vec<String>)
    ensures
        texts(r@) == distinct(texts(candidates@)),
{
    let mut out: Vec<String> = Vec::new();
    let n = candidates.len();
    for i in 0..n
        invariant
            n == candidates@.len(),
            texts(out@) == distinct(texts(candidates@).take(i as int)),
    {
        let ghost cv = texts(candidates@);
        let mut seen = false;
        let mut j: usize = 0;
        while j < i
            invariant
                i < n,
                n == candidates@.len(),
                cv == texts(candidates@),
                j <= i,
                seen <==> exists|k: int| 0 <= k < j && cv[k] == cv[i as int],
            decreases i - j,
        {
            let eq = crate::json::str_eq(candidates[j].as_str(), candidates[i].as_str());
            assert(cv[j as int] == candidates@[j as int]@);
            assert(cv[i as int] == candidates@[i as int]@);
            assert((exists|k: int| 0 <= k < j + 1 && cv[k] == cv[i as int]) <==> ((exists|k: int|
                0 <= k < j && cv[k] == cv[i as int]) || cv[j as int] == cv[i as int])) by {
                if cv[j as int] == cv[i as int] {
                    assert(0 <= j < j + 1 && cv[j as int] == cv[i as int]);
                }
                if exists|k: int| 0 <= k < j + 1 && cv[k] == cv[i as int] {
                    let k = choose|k: int| 0 <= k < j + 1 && cv[k] == cv[i as int];
                    if k < j {
                        assert(0 <= k < j && cv[k] == cv[i as int]);
                    }
                }
            }
            if eq {
                seen = true;
            }
            j = j + 1;
        }
        let ghost pre = cv.take(i as int);
        assert(cv.take(i + 1).drop_last() == pre);
        assert(cv.take(i + 1).last() == cv[i as int]);
        if seen {
            proof {
                let k = choose|k: int| 0 <= k < i && cv[k] == cv[i as int];
                assert(pre[k] == cv[i as int]);
            }
        } else {
            assert(!pre.contains(cv[i as int]));
            out.push(candidates[i].clone());
            assert(texts(out@) == distinct(pre).push(cv[i as int]));
        }
    }
    assert(texts(candidates@).take(n as int) == texts(candidates@));
    out
}

/// Where the balance is asked for with an app version.
pub open spec fn balance_url_text(version: Seq<char>) -> Seq<char> {
    "https://zcode.z.ai/api/v1/zcode-plan/billing/balance?app_version="@ + version
}

/// How the request with an app version is named in errors.
pub open spec fn balance_label_text(version: Seq<char>) -> Seq<char> {
    "billing/balance?app_version="@ + version
}

pub fn balance_url(version: &str) -> (r: String)
    ensures
        r@ == balance_url_text(version@),
{
    cat("https://zcode.z.ai/api/v1/zcode-plan/billing/balance?app_version=", version)
}

pub fn balance_label(version: &str) -> (r: String)
    ensures
        r@ == balance_label_text(version@),
{
    cat("billing/balance?app_version=", version)
}

/// An integer in decimal, with `-` before a negative one.
pub open spec fn signed_decimal(x: int) -> Seq<char> {
    if x < 0 {
        "-"@ + crate::text::decimal((-x) as nat)
    } else {
        crate::text::decimal(x as nat)
    }
}

fn i64_text(x: i64) -> (r: String)
    ensures
        r@ == signed_decimal(x as int),
{
    if x < 0 {
        let wide: i128 = x as i128;
        let m: u64 = (0i128 - wide) as u64;
        let mut t = chars_of("-");
        let d = crate::text::decimal_chars(m);
        crate::text::extend_chars(&mut t, d.as_slice());
        string_of(t.as_slice())
    } else {
        let d = crate::text::decimal_chars(x as u64);
        string_of(d.as_slice())
    }
}

/// The error when a reply carries no data: `<label> 返回 code=<code>`.
pub fn missing_data_error(label: &str, code: i64) -> (r: String)
    ensures
        r@ == label@ + " 返回 code="@ + signed_decimal(code as int),
{
    let head = cat(label, " 返回 code=");
    let c = i64_text(code);
    cat(head.as_str(), c.as_str())
}

pub open spec fn balance_failure_text(last_error: Option<Seq<char>>) -> Seq<char> {
    match last_error {
        Some(e) => "额度明细获取失败："@ + e,
        None => "额度明细获取失败："@ + "未能请求 billing/balance"@,
    }
}

/// The error when no app version gave the balance.
pub fn balance_failure(last_error: Option<String>) -> (r: String)
    ensures
        r@ == balance_failure_text(text_of(last_error)),
{
    match last_error {
        Some(e) => cat("额度明细获取失败：", e.as_str()),
        None => cat("额度明细获取失败：", "未能请求 billing/balance"),
    }
}

pub open spec fn no_balances_error() -> Seq<char> {
    "额度接口未返回可显示的模型额度明细"@
}

/// A quota is only shown with at least one balance entry.
pub fn require_balances(count: usize) -> (r: Result<(), String>)
    ensures
        count > 0 <==> r is Ok,
        r matches Err(e) ==> e@ == no_balances_error(),
{
    if count == 0 {
        Err(owned("额度接口未返回可显示的模型额度明细"))
    } else {
        Ok(())
    }
}

/// A logged reply is used only when its `code` is 0 and it carries data
/// with at least one balance entry (`balance_count` is `None` without data).
pub fn usable_logged_reply(code: i64, balance_count: Option<usize>) -> (r: bool)
    ensures
        r <==> (code == 0 && (balance_count matches Some(n) && n > 0)),
{
    match balance_count {
        Some(n) => code == 0 && n > 0,
        None => false,
    }
}

// ---------------------------------------------------------------------------
// Asking each app version in turn
// ---------------------------------------------------------------------------

/// Which app version is asked next, and the last error so far.
pub struct BalanceFetch {
    pub versions: Vec<String>,
    pub next: usize,
    pub last_error: Option<String>,
}

/// What to do next while fetching the balance.
pub enum BalanceAction {
    /// Ask this URL; errors name the request by `label`.
    Request { url: String, label: String },
    /// Use the data of the reply just read.
    UseReply,
    /// Give up with this error.
    Fail(String),
}

pub enum BalanceActionView {
    Request { url: Seq<char>, label: Seq<char> },
    UseReply,
    Fail(Seq<char>),
}

impl View for BalanceAction {
    type V = BalanceActionView;

    open spec fn view(&self) -> BalanceActionView {
        match self {
            BalanceAction::Request { url, label } => BalanceActionView::Request { url: url@, label: label@ },
            BalanceAction::UseReply => BalanceActionView::UseReply,
            BalanceAction::Fail(e) => BalanceActionView::Fail(e@),
        }
    }
}

/// What asking one app version gave.
pub enum BalanceEvent {
    /// The request failed after its retries, with this error.
    RequestFailed(String),
    /// The reply could not be read as a billing envelope.
    Unreadable(String),
    /// The reply's `code`, and whether it carried data.
    Reply { code: i64, has_data: bool },
}

/// The action for version `next` of `versions`: ask it, or give up when
/// none is left.
pub open spec fn next_request(versions: Seq<Seq<char>>, next: int, last_error: Option<Seq<char>>) -> BalanceActionView {
    if 0 <= next < versions.len() {
        BalanceActionView::Request {
            url: balance_url_text(versions[next]),
            label: balance_label_text(versions[next]),
        }
    } else {
        BalanceActionView::Fail(balance_failure_text(last_error))
    }
}

fn request_for(f: &BalanceFetch) -> (r: BalanceAction)
    ensures
        r@ == next_request(texts(f.versions@), f.next as int, text_of(f.last_error)),
{
    if f.next < f.versions.len() {
        let v = f.versions[f.next].as_str();
        BalanceAction::Request { url: balance_url(v), label: balance_label(v) }
    } else {
        let e = match &f.last_error {
            Some(e) => Some(e.clone()),
            None => None,
        };
        BalanceAction::Fail(balance_failure(e))
    }
}

/// The start of a balance fetch: the distinct versions, the first request.
pub fn balance_fetch_start(candidates: &Vec<String>) -> (r: (BalanceFetch, BalanceAction))
    ensures
        texts(r.0.versions@) == distinct(texts(candidates@)),
        r.0.next == 0,
        r.0.last_error is None,
        r.1@ == next_request(texts(r.0.versions@), 0, None),
{
    let f = BalanceFetch { versions: distinct_versions(candidates), next: 0, last_error: None };
    let a = request_for(&f);
    (f, a)
}

/// The action after asking version `next`: a failed request is remembered
/// and the next version asked; an unreadable reply ends the fetch; a reply
/// with data is used; one without data is remembered as
/// `<label> 返回 code=<code>` and the next version asked.
pub fn balance_fetch_step(f: &mut BalanceFetch, event: BalanceEvent) -> (r: BalanceAction)
    requires
        old(f).next < old(f).versions@.len(),
    ensures
        final(f).versions@ == old(f).versions@,
        match event {
            BalanceEvent::RequestFailed(e) => final(f).next == old(f).next + 1 && text_of(final(f).last_error)
                == Some(e@) && r@ == next_request(texts(old(f).versions@), old(f).next + 1, Some(e@)),
            BalanceEvent::Unreadable(e) => final(f).next == old(f).next && r@ == BalanceActionView::Fail(
                "解析失败："@ + e@,
            ),
            BalanceEvent::Reply { code, has_data } => if has_data {
                final(f).next == old(f).next && r is UseReply
            } else {
                let err = balance_label_text(old(f).versions@[old(f).next as int]@) + " 返回 code="@
                    + signed_decimal(code as int);
                final(f).next == old(f).next + 1 && text_of(final(f).last_error) == Some(err) && r@
                    == next_request(texts(old(f).versions@), old(f).next + 1, Some(err))
            },
        },
{
    let n = f.versions.len();
    assert(f.next < n);
    match event {
        BalanceEvent::RequestFailed(e) => {
            f.last_error = Some(e);
            f.next = f.next + 1;
            request_for(f)
        },
        BalanceEvent::Unreadable(e) => BalanceAction::Fail(cat("解析失败：", e.as_str())),
        BalanceEvent::Reply { code, has_data } => {
            if has_data {
                BalanceAction::UseReply
            } else {
                let label = balance_label(f.versions[f.next].as_str());
                f.last_error = Some(missing_data_error(label.as_str(), code));
                f.next = f.next + 1;
                request_for(f)
            }
        },
    }
}

// ---------------------------------------------------------------------------
// Scanning a log file for the latest balance
// ---------------------------------------------------------------------------

/// The balance lines among `ls`, the last one first.
pub open spec fn balance_lines(ls: Seq<Seq<char>>) -> Seq<Seq<char>>
    decreases ls.len(),
{
    if ls.len() == 0 {
        Seq::empty()
    } else {
        (if has_infix(ls.last(), balance_marker()) {
            seq![ls.last()]
        } else {
            Seq::<Seq<char>>::empty()
        }) + balance_lines(ls.drop_last())
    }
}

/// The lines of a log file that record a finished balance request, from
/// the end of the file to its start.
pub fn balance_log_candidates(text: &str) -> (r: Vec<String>)
    ensures
        texts(r@) == balance_lines(crate::text::lines(text@)),
{
    let cs = chars_of(text);
    let ls = crate::text::split_lines(cs.as_slice());
    let ghost lv = crate::text::lines(text@);
    let mut out: Vec<String> = Vec::new();
    let n = ls.len();
    let mut i = n;
    assert(lv.take(n as int) == lv);
    while i > 0
        invariant
            i <= n,
            n == ls@.len(),
            lv == crate::text::lines(text@),
            n == lv.len(),
            forall|k: int| 0 <= k < n ==> #[trigger] ls@[k]@ == lv[k],
            balance_lines(lv) == texts(out@) + balance_lines(lv.take(i as int)),
        decreases i,
    {
        let ghost pre = lv.take(i as int);
        assert(pre.drop_last() == lv.take(i - 1));
        assert(pre.last() == ls@[i - 1]@);
        let line = string_of(ls[i - 1].as_slice());
        let ghost before = texts(out@);
        if is_balance_log_line(line.as_str()) {
            out.push(line);
            assert(texts(out@) =~= before + seq![pre.last()]);
        } else {
            assert(texts(out@) =~= before + Seq::<Seq<char>>::empty());
        }
        i = i - 1;
    }
    assert(balance_lines(lv.take(0)) =~= Seq::<Seq<char>>::empty());
    assert(texts(out@) + Seq::<Seq<char>>::empty() =~= texts(out@));
    out
}

/// A balance line is taken when it was written at or after `cutoff` and its
/// reply is usable.
pub open spec fn line_accepted(line: (Option<u128>, bool), cutoff: u128) -> bool {
    line.0 matches Some(t) && t >= cutoff && line.1
}

/// Which candidate line gives the balance, given each one's write time (when
/// readable) and whether its reply is usable: the first one written at or
/// after `cutoff` with a usable reply.
pub fn first_accepted_line(lines: &Vec<(Option<u128>, bool)>, cutoff: u128) -> (r: Option<usize>)
    ensures
        match r {
            Some(i) => i < lines@.len() && line_accepted(lines@[i as int], cutoff) && forall|j: int|
                0 <= j < i ==> !line_accepted(#[trigger] lines@[j], cutoff),
            None => forall|j: int| 0 <= j < lines@.len() ==> !line_accepted(#[trigger] lines@[j], cutoff),
        },
{
    let n = lines.len();
    for i in 0..n
        invariant
            n == lines@.len(),
            forall|j: int| 0 <= j < i ==> !line_accepted(#[trigger] lines@[j], cutoff),
    {
        let (t, usable) = lines[i];
        let ok = match t {
            Some(t) => t >= cutoff && usable,
            None => false,
        };
        if ok {
            return Some(i);
        }
    }
    None
}

} // verus!
