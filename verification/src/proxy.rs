//! The decisions of the upstream client: what to ask NVIDIA NIM, how to
//! treat its answer, and how to poll for an answer it defers.

use vstd::prelude::*;
use crate::config::TimeoutsConfig;
use crate::json::{obj_get, Json, JsonValue};

verus! {

/// The upstream API's base URL.
pub const NVIDIA_BASE_URL: &'static str = "https://integrate.api.nvidia.com/v1";

/// The whole-request timeout of the HTTP client: the larger of the two
/// configured ones.
pub fn client_timeout_seconds(t: &TimeoutsConfig) -> (r: u64)
    ensures
        r == (if t.streaming_seconds >= t.request_seconds {
            t.streaming_seconds
        } else {
            t.request_seconds
        }),
{
    if t.streaming_seconds >= t.request_seconds {
        t.streaming_seconds
    } else {
        t.request_seconds
    }
}

/// The `Accept` header of a chat-completion call.
pub fn accept_header(stream: bool) -> (r: &'static str)
    ensures
        r@ == (if stream { "text/event-stream"@ } else { "application/json"@ }),
{
    if stream {
        "text/event-stream"
    } else {
        "application/json"
    }
}

/// The per-call timeout of a chat-completion call.
pub fn call_timeout_seconds(t: &TimeoutsConfig, stream: bool) -> (r: u64)
    ensures
        r == (if stream { t.streaming_seconds } else { t.request_seconds }),
{
    if stream {
        t.streaming_seconds
    } else {
        t.request_seconds
    }
}

/// The chat-completion endpoint under a base URL.
pub fn chat_completions_url(base_url: &str) -> (r: String)
    ensures
        r@ == base_url@ + "/chat/completions"@,
{
    let mut u = base_url.to_string();
    u.append("/chat/completions");
    u
}

/// Whether an HTTP status is a success (2xx).
pub open spec fn is_success(status: u16) -> bool {
    200 <= status <= 299
}

/// What to do with an upstream answer to a chat-completion call.
#[derive(Debug, PartialEq, Eq)]
pub enum UpstreamAction {
    /// Pass the event stream on, rewritten, with the upstream status.
    StreamThrough,
    /// Answer 200 with the upstream body as it is.
    PassBody,
    /// The answer is deferred (202): poll for it.
    Poll,
    /// Answer with an upstream error document carrying the upstream status
    /// and body text.
    ErrorAnswer,
}

/// Classifies an upstream answer by whether a stream was asked for and by
/// its status. A deferred answer (202) of a call that is not streamed is
/// polled for.
pub fn classify_upstream(stream: bool, status: u16) -> (r: UpstreamAction)
    ensures
        r == (if stream {
            if is_success(status) {
                UpstreamAction::StreamThrough
            } else {
                UpstreamAction::ErrorAnswer
            }
        } else if status == 202 {
            UpstreamAction::Poll
        } else if is_success(status) {
            UpstreamAction::PassBody
        } else {
            UpstreamAction::ErrorAnswer
        }),
{
    if stream {
        if 200 <= status && status <= 299 {
            UpstreamAction::StreamThrough
        } else {
            UpstreamAction::ErrorAnswer
        }
    } else if status == 202 {
        UpstreamAction::Poll
    } else if 200 <= status && status <= 299 {
        UpstreamAction::PassBody
    } else {
        UpstreamAction::ErrorAnswer
    }
}

} // verus!

verus! {

/// The request id of a deferred answer: its string `requestId`, else its
/// string `id`.
pub open spec fn deferred_request_id(body: Json) -> Option<Seq<char>> {
    match body {
        Json::Obj(m) => if m.contains_key("requestId"@) && m["requestId"@] is Str {
            Some(m["requestId"@]->Str_0)
        } else if m.contains_key("id"@) && m["id"@] is Str {
            Some(m["id"@]->Str_0)
        } else {
            None
        },
        _ => None,
    }
}

/// Where polling for a deferred answer goes.
#[derive(Debug)]
pub struct PollTarget {
    pub request_id: String,
    pub url: String,
}

/// Why polling for a deferred answer could not start.
#[derive(Debug, PartialEq, Eq)]
pub enum PollStartError {
    /// The model has no `status_poll_path`: answered 502.
    NoPollPath,
    /// The deferred answer names no request id: the call fails.
    MissingRequestId,
}

impl PollStartError {
    /// The text the error is reported with.
    pub fn message(&self) -> (r: String)
        ensures
            r@ == (match self {
                PollStartError::NoPollPath => "Upstream returned 202 but no status_poll_path configured for this model"@,
                PollStartError::MissingRequestId => "Upstream 202 response missing requestId"@,
            }),
    {
        match self {
            PollStartError::NoPollPath => "Upstream returned 202 but no status_poll_path configured for this model".to_string(),
            PollStartError::MissingRequestId => "Upstream 202 response missing requestId".to_string(),
        }
    }
}

/// The polling target for a deferred answer: the request id from its body,
/// and the URL made of the base URL and the model's path template with
/// every `{request_id}` replaced by the id.
pub fn start_polling(status_poll_path: Option<&str>, body: &JsonValue, base_url: &str) -> (r: Result<
    PollTarget,
    PollStartError,
>)
    ensures
        match status_poll_path {
            None => r == Err::<PollTarget, PollStartError>(PollStartError::NoPollPath),
            Some(t) => match deferred_request_id(body@) {
                None => r == Err::<PollTarget, PollStartError>(PollStartError::MissingRequestId),
                Some(id) => r matches Ok(p) && p.request_id@ == id && p.url@ == base_url@
                    + crate::text::replace_all(t@, "{request_id}"@, id),
            },
        },
{
    let template = match status_poll_path {
        Some(t) => t,
        None => {
            return Err(PollStartError::NoPollPath);
        },
    };
    let mut id: Option<String> = None;
    if let JsonValue::Object(es) = body {
        if let Some(JsonValue::Str(s)) = obj_get(es, &"requestId".to_string()) {
            id = Some(s.clone());
        } else if let Some(JsonValue::Str(s)) = obj_get(es, &"id".to_string()) {
            id = Some(s.clone());
        }
    }
    let request_id = match id {
        Some(s) => s,
        None => {
            return Err(PollStartError::MissingRequestId);
        },
    };
    proof {
        reveal_strlit("{request_id}");
    }
    let path = crate::text::replace_text(template, "{request_id}", request_id.as_str());
    let mut url = base_url.to_string();
    url.append(path.as_str());
    Ok(PollTarget { request_id, url })
}

/// The pacing of polling: the wait before the next poll, doubling up to a
/// maximum, and the time limit.
#[derive(Debug)]
pub struct Poller {
    interval_ms: u64,
    max_interval_ms: u64,
    max_poll_seconds: u64,
}

impl View for Poller {
    type V = (u64, u64, u64);

    closed spec fn view(&self) -> (u64, u64, u64) {
        (self.interval_ms, self.max_interval_ms, self.max_poll_seconds)
    }
}

impl Poller {
    /// Pacing as configured.
    pub fn new(t: &TimeoutsConfig) -> (r: Poller)
        ensures
            r@ == (t.poll_interval_start_ms, t.poll_interval_max_ms, t.max_poll_seconds),
    {
        Poller {
            interval_ms: t.poll_interval_start_ms,
            max_interval_ms: t.poll_interval_max_ms,
            max_poll_seconds: t.max_poll_seconds,
        }
    }

    /// The wait before the next poll, in milliseconds.
    pub fn interval_ms(&self) -> (r: u64)
        ensures
            r == self@.0,
    {
        self.interval_ms
    }

    /// Hands back the wait before the next poll and doubles it, up to the
    /// maximum.
    pub fn next_wait(&mut self) -> (r: u64)
        requires
            old(self)@.0 * 2 <= u64::MAX,
        ensures
            r == old(self)@.0,
            final(self)@.1 == old(self)@.1,
            final(self)@.2 == old(self)@.2,
            final(self)@.0 == (if old(self)@.0 * 2 <= old(self)@.1 {
                old(self)@.0 * 2
            } else {
                old(self)@.1 as int
            }),
    {
        let r = self.interval_ms;
        let doubled = self.interval_ms * 2;
        self.interval_ms = if doubled <= self.max_interval_ms {
            doubled
        } else {
            self.max_interval_ms
        };
        r
    }

    /// Whether polling has run past its time limit after `elapsed_ns`
    /// nanoseconds.
    pub fn timed_out(&self, elapsed_ns: u128) -> (r: bool)
        ensures
            r == (elapsed_ns > self@.2 * 1_000_000_000),
    {
        elapsed_ns > (self.max_poll_seconds as u128) * 1_000_000_000u128
    }
}

/// What a poll's answer leads to.
#[derive(Debug, PartialEq, Eq)]
pub enum PollDecision {
    /// The answer is ready: answer 200 with its body.
    Ready,
    /// Still deferred: wait and poll again.
    Pending,
    /// Answer with an upstream error document carrying this status.
    Failed,
}

/// Classifies a poll's answer by its status: 202 means still pending.
pub fn poll_decision(status: u16) -> (r: PollDecision)
    ensures
        r == (if status == 202 {
            PollDecision::Pending
        } else if is_success(status) {
            PollDecision::Ready
        } else {
            PollDecision::Failed
        }),
{
    if status == 202 {
        PollDecision::Pending
    } else if 200 <= status && status <= 299 {
        PollDecision::Ready
    } else {
        PollDecision::Failed
    }
}

/// What the polling loop hands to [`Poller::step`].
#[derive(Debug)]
pub enum PollEvent {
    /// Polling starts.
    Begin,
    /// The wait is over; `elapsed_ns` nanoseconds have passed since polling
    /// started.
    Woke { elapsed_ns: u128 },
    /// A poll was answered with this status.
    Answered { status: u16 },
}

/// What the polling loop does next.
#[derive(Debug, PartialEq, Eq)]
pub enum PollAction {
    /// Wait this many milliseconds, then report [`PollEvent::Woke`].
    Sleep { ms: u64 },
    /// Poll the status endpoint, then report [`PollEvent::Answered`].
    SendPoll,
    /// The answer is ready: answer 200 with the poll's body.
    AnswerReady,
    /// Answer with an upstream error document carrying the poll's status.
    AnswerFailed,
    /// Polling ran past its time limit: answer 504.
    TimedOut,
}

/// The wait after `w`: doubled, up to the maximum.
pub open spec fn next_interval(w: u64, max: u64) -> u64 {
    if w * 2 <= max {
        (w * 2) as u64
    } else {
        max
    }
}

/// Whether the event makes the poller wait again, doubling its wait.
pub open spec fn event_waits(ev: PollEvent) -> bool {
    match ev {
        PollEvent::Begin => true,
        PollEvent::Answered { status } => status == 202,
        PollEvent::Woke { .. } => false,
    }
}

/// One step of polling: the pacing after the event, and what to do next.
/// A wait is followed by a poll unless the time limit has passed; a
/// pending answer (202) leads to another, longer wait.
pub open spec fn poll_step(p: (u64, u64, u64), ev: PollEvent) -> ((u64, u64, u64), PollAction) {
    let wait = ((next_interval(p.0, p.1), p.1, p.2), PollAction::Sleep { ms: p.0 });
    match ev {
        PollEvent::Begin => wait,
        PollEvent::Woke { elapsed_ns } => if elapsed_ns > p.2 * 1_000_000_000 {
            (p, PollAction::TimedOut)
        } else {
            (p, PollAction::SendPoll)
        },
        PollEvent::Answered { status } => if status == 202 {
            wait
        } else if is_success(status) {
            (p, PollAction::AnswerReady)
        } else {
            (p, PollAction::AnswerFailed)
        },
    }
}

impl Poller {
    /// Takes what happened and says what to do next (see [`poll_step`]).
    /// Doubling a wait must fit in 64 bits.
    pub fn step(&mut self, event: PollEvent) -> (r: PollAction)
        requires
            event_waits(event) ==> old(self)@.0 * 2 <= u64::MAX,
        ensures
            (final(self)@, r) == poll_step(old(self)@, event),
    {
        match event {
            PollEvent::Begin => PollAction::Sleep { ms: self.next_wait() },
            PollEvent::Woke { elapsed_ns } => {
                if self.timed_out(elapsed_ns) {
                    PollAction::TimedOut
                } else {
                    PollAction::SendPoll
                }
            },
            PollEvent::Answered { status } => match poll_decision(status) {
                PollDecision::Pending => PollAction::Sleep { ms: self.next_wait() },
                PollDecision::Ready => PollAction::AnswerReady,
                PollDecision::Failed => PollAction::AnswerFailed,
            },
        }
    }
}

/// The message of the answer given when polling timed out.
pub fn poll_timeout_message(request_id: &str) -> (r: String)
    ensures
        r@ == "Polling for requestId "@ + request_id@ + " timed out"@,
{
    let mut m = "Polling for requestId ".to_string();
    m.append(request_id);
    m.append(" timed out");
    m
}

/// What a test call comes to: the body when the status is a success, else
/// an error naming the status (as `status_text`) and the body.
pub fn test_call_result(status: u16, status_text: &str, body: String) -> (r: Result<String, String>)
    ensures
        is_success(status) ==> r == Ok::<String, String>(body),
        !is_success(status) ==> (r matches Err(m) && m@ == "Test call failed ("@ + status_text@
            + "): "@ + body@),
{
    if 200 <= status && status <= 299 {
        Ok(body)
    } else {
        let mut m = "Test call failed (".to_string();
        m.append(status_text);
        m.append("): ");
        m.append(body.as_str());
        Err(m)
    }
}

/// Law: once a wait is over, polling stops with a timeout exactly when the
/// time passed since polling started is beyond the configured limit
/// (`max_poll_seconds`, the third part of the pacing); otherwise the next
/// poll is sent. Waking changes no pacing.
pub proof fn law_woke_times_out_at_limit(t: &TimeoutsConfig, elapsed_ns: u128)
    ensures
        ({
            let p = (t.poll_interval_start_ms, t.poll_interval_max_ms, t.max_poll_seconds);
            let (q, a) = poll_step(p, PollEvent::Woke { elapsed_ns });
            &&& q == p
            &&& (a == PollAction::TimedOut <==> elapsed_ns > t.max_poll_seconds as int * 1_000_000_000)
            &&& (a == PollAction::SendPoll <==> elapsed_ns <= t.max_poll_seconds as int * 1_000_000_000)
        }),
{
}

/// Law: polling starts, and goes on after a pending answer (202), by
/// waiting the current wait, which then doubles, up to the maximum; a
/// success other than 202 is answered with the poll's body, any other
/// status as an upstream error, and neither changes the pacing.
pub proof fn law_poll_answers(p: (u64, u64, u64), status: u16)
    requires
        p.0 * 2 <= u64::MAX,
    ensures
        ({
            let (q, a) = poll_step(p, PollEvent::Begin);
            &&& a == PollAction::Sleep { ms: p.0 }
            &&& q.1 == p.1 && q.2 == p.2
            &&& (p.0 * 2 <= p.1 ==> q.0 == p.0 * 2)
            &&& (p.0 * 2 > p.1 ==> q.0 == p.1)
        }),
        poll_step(p, PollEvent::Answered { status: 202 }) == poll_step(p, PollEvent::Begin),
        status != 202 && 200 <= status <= 299 ==> poll_step(p, PollEvent::Answered { status }) == (
            p,
            PollAction::AnswerReady,
        ),
        !(200 <= status <= 299) ==> poll_step(p, PollEvent::Answered { status }) == (
            p,
            PollAction::AnswerFailed,
        ),
{
}

/// Law: the wait between polls never exceeds the larger of the starting
/// wait and the maximum, and it only grows while below the maximum.
pub proof fn law_poll_wait_bounded(w: u64, max: u64)
    requires
        w * 2 <= u64::MAX,
    ensures
        next_interval(w, max) <= (if w >= max { w } else { max }),
        w <= max ==> w <= next_interval(w, max),
{
}

} // verus!

verus! {

/// The body of the test call: one user message, `hello world`, answered in
/// at most 50 tokens.
pub open spec fn test_call_doc(backend_id: Seq<char>) -> Json {
    Json::Obj(
        Map::<Seq<char>, Json>::empty().insert("model"@, Json::Str(backend_id)).insert(
            "messages"@,
            Json::Arr(
                seq![
                    Json::Obj(
                        Map::<Seq<char>, Json>::empty().insert("role"@, Json::Str("user"@)).insert(
                            "content"@,
                            Json::Str("hello world"@),
                        ),
                    ),
                ],
            ),
        ).insert("max_tokens"@, Json::Num(crate::json::NumberModel::PosInt(50))),
    )
}

/// The body of the admin test call for an upstream model.
pub fn test_call_body(backend_id: &str) -> (r: JsonValue)
    ensures
        r@ == test_call_doc(backend_id@),
{
    let mut msg: Vec<(String, JsonValue)> = Vec::new();
    proof {
        assert(crate::json::entries_view(msg@) =~= Map::<Seq<char>, Json>::empty());
    }
    crate::json::obj_insert(&mut msg, "role".to_string(), JsonValue::Str("user".to_string()));
    crate::json::obj_insert(
        &mut msg,
        "content".to_string(),
        JsonValue::Str("hello world".to_string()),
    );
    let ghost mv = crate::json::entries_view(msg@);
    let mut messages: Vec<JsonValue> = Vec::new();
    messages.push(JsonValue::Object(msg));
    proof {
        crate::sse::lemma_items_view(messages@);
        assert(crate::json::items_view(messages@) =~= seq![Json::Obj(mv)]);
    }
    let mut body: Vec<(String, JsonValue)> = Vec::new();
    proof {
        assert(crate::json::entries_view(body@) =~= Map::<Seq<char>, Json>::empty());
    }
    crate::json::obj_insert(&mut body, "model".to_string(), JsonValue::Str(backend_id.to_string()));
    crate::json::obj_insert(&mut body, "messages".to_string(), JsonValue::Array(messages));
    crate::json::obj_insert(
        &mut body,
        "max_tokens".to_string(),
        JsonValue::Number(crate::json::JsonNumber::PosInt(50)),
    );
    JsonValue::Object(body)
}

} // verus!
