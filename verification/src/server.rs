//! The decisions of the HTTP handlers: which requests are forwarded, what
//! errors are answered, what the model list and the event log hold.

use vstd::prelude::*;
use std::collections::VecDeque;
use crate::json::{entries_view, obj_get, obj_insert, Json, JsonNumber, JsonValue, NumberModel};
use crate::models::{find_id, ModelRegistry};
use crate::transform::{injection_conflict, transform_blocked, transform_request, transform_spec};

verus! {

/// One entry of the recent-events log shown by the admin interface.
#[derive(Debug)]
pub struct RecentEvent {
    pub timestamp: String,
    pub level: String,
    pub message: String,
}

/// The mathematical model of a [`RecentEvent`].
pub struct EventModel {
    pub timestamp: Seq<char>,
    pub level: Seq<char>,
    pub message: Seq<char>,
}

impl View for RecentEvent {
    type V = EventModel;

    open spec fn view(&self) -> EventModel {
        EventModel { timestamp: self.timestamp@, level: self.level@, message: self.message@ }
    }
}

impl RecentEvent {
    /// A copy of the event.
    pub fn copy(&self) -> (r: RecentEvent)
        ensures
            r@ == self@,
    {
        RecentEvent {
            timestamp: self.timestamp.clone(),
            level: self.level.clone(),
            message: self.message.clone(),
        }
    }
}

/// How many events the log keeps.
pub const EVENT_LOG_CAPACITY: usize = 100;

/// The last [`EVENT_LOG_CAPACITY`] events of a sequence.
pub open spec fn keep_recent(s: Seq<EventModel>) -> Seq<EventModel> {
    if s.len() > EVENT_LOG_CAPACITY {
        s.skip(s.len() - EVENT_LOG_CAPACITY)
    } else {
        s
    }
}

/// The recent-events log: the most recent events, oldest first.
#[derive(Debug)]
pub struct RecentEvents {
    events: VecDeque<RecentEvent>,
}

impl View for RecentEvents {
    type V = Seq<EventModel>;

    closed spec fn view(&self) -> Seq<EventModel> {
        Seq::new(self.events@.len(), |i: int| self.events@[i]@)
    }
}

impl RecentEvents {
    /// An empty log.
    pub fn new() -> (r: RecentEvents)
        ensures
            r@ == Seq::<EventModel>::empty(),
    {
        let r = RecentEvents { events: VecDeque::new() };
        proof {
            assert(r@ =~= Seq::<EventModel>::empty());
        }
        r
    }

    /// Appends an event and drops the oldest ones beyond the capacity.
    pub fn log_event(&mut self, event: RecentEvent)
        ensures
            final(self)@ == keep_recent(old(self)@.push(event@)),
    {
        let ghost s = old(self)@.push(event@);
        self.events.push_back(event);
        proof {
            assert(self@ =~= s);
        }
        while self.events.len() > EVENT_LOG_CAPACITY
            invariant
                self@ == (if s.len() > self@.len() { s.skip(s.len() - self@.len()) } else { s }),
                self@.len() <= s.len(),
                self@.len() >= (if s.len() > EVENT_LOG_CAPACITY { EVENT_LOG_CAPACITY as int } else { s.len() as int }),
                self@.len() == self.events@.len(),
            decreases self.events.len(),
        {
            let ghost before = self@;
            let _ = self.events.pop_front();
            proof {
                assert(self@ =~= before.drop_first());
                assert(s.skip(s.len() - self@.len()) =~= before.drop_first()) by {
                    if s.len() > before.len() {
                        assert(s.skip(s.len() - before.len()).drop_first() =~= s.skip(
                            s.len() - self@.len(),
                        ));
                    } else {
                        assert(before =~= s);
                    }
                }
            }
        }
        proof {
            if s.len() > EVENT_LOG_CAPACITY {
                assert(self@.len() == EVENT_LOG_CAPACITY);
            } else {
                assert(self@.len() == s.len());
            }
        }
    }

    /// Copies of the events, oldest first.
    pub fn events(&self) -> (r: Vec<RecentEvent>)
        ensures
            r@.len() == self@.len(),
            forall|i: int| 0 <= i < r@.len() ==> (#[trigger] r@[i])@ == self@[i],
    {
        let mut out: Vec<RecentEvent> = Vec::new();
        let mut i: usize = 0;
        while i < self.events.len()
            invariant
                i <= self.events@.len(),
                out@.len() == i,
                forall|j: int| 0 <= j < i ==> (#[trigger] out@[j])@ == self@[j],
            decreases self.events.len() - i,
        {
            out.push(self.events[i].copy());
            i = i + 1;
        }
        out
    }
}

/// Law: the log never holds more than its capacity, and the newest event
/// is always the last one kept.
pub proof fn law_event_log_bounded(old_log: Seq<EventModel>, e: EventModel)
    ensures
        keep_recent(old_log.push(e)).len() <= EVENT_LOG_CAPACITY,
        keep_recent(old_log.push(e)).last() == e,
{
}

} // verus!

verus! {

/// The OpenAI-style error document `{"error": {"message", "type", "code"}}`.
pub open spec fn error_doc(message: Seq<char>, kind: Seq<char>, code: u16) -> Json {
    Json::Obj(
        Map::<Seq<char>, Json>::empty().insert(
            "error"@,
            Json::Obj(
                Map::<Seq<char>, Json>::empty().insert("message"@, Json::Str(message)).insert(
                    "type"@,
                    Json::Str(kind),
                ).insert("code"@, Json::Num(NumberModel::PosInt(code as u64))),
            ),
        ),
    )
}

/// The body of an error answer: the message, the error's type
/// (`nimpipe_error` for the proxy's own, `upstream_error` for NIM's) and
/// the HTTP status code.
pub fn error_body(message: &str, kind: &str, code: u16) -> (r: JsonValue)
    ensures
        r@ == error_doc(message@, kind@, code),
{
    let mut inner: Vec<(String, JsonValue)> = Vec::new();
    proof {
        assert(entries_view(inner@) =~= Map::<Seq<char>, Json>::empty());
    }
    obj_insert(&mut inner, "message".to_string(), JsonValue::Str(message.to_string()));
    obj_insert(&mut inner, "type".to_string(), JsonValue::Str(kind.to_string()));
    obj_insert(&mut inner, "code".to_string(), JsonValue::Number(JsonNumber::PosInt(code as u64)));
    let mut outer: Vec<(String, JsonValue)> = Vec::new();
    proof {
        assert(entries_view(outer@) =~= Map::<Seq<char>, Json>::empty());
    }
    obj_insert(&mut outer, "error".to_string(), JsonValue::Object(inner));
    JsonValue::Object(outer)
}

/// The `model` a request names: its string value, or empty.
pub open spec fn request_model(p: Json) -> Seq<char> {
    match p {
        Json::Obj(m) => if m.contains_key("model"@) && m["model"@] is Str {
            m["model"@]->Str_0
        } else {
            Seq::empty()
        },
        _ => Seq::empty(),
    }
}

/// Whether a request asks for a stream: its boolean `stream`, or false.
pub open spec fn request_stream(p: Json) -> bool {
    match p {
        Json::Obj(m) => m.contains_key("stream"@) && m["stream"@] is Bool && m["stream"@]->Bool_0,
        _ => false,
    }
}

/// What a chat-completion request leads to.
#[derive(Debug)]
pub enum ChatPlan {
    /// Send `body` upstream.
    Forward { body: JsonValue, stream: bool, status_poll_path: Option<String> },
    /// Answer with an error of the proxy's own.
    Reject { status: u16, message: String },
    /// An injected parameter's path runs through a value that is not an
    /// object; the request cannot be rewritten.
    InjectionConflict,
}

/// Decides what a chat-completion request leads to: an unknown model is
/// answered 404; a stream asked of a model that does not stream, or a body
/// that cannot be rewritten, 400; otherwise the rewritten body is sent
/// upstream.
pub fn plan_chat_request(payload: JsonValue, registry: &ModelRegistry) -> (r: ChatPlan)
    ensures
        ({
            let id = request_model(payload@);
            let stream = request_stream(payload@);
            match find_id(registry@, id) {
                None => r matches ChatPlan::Reject { status, message } && status == 404
                    && message@ == "Model '"@ + id + "' not found"@,
                Some(e) => if stream && !e.supports_streaming {
                    r matches ChatPlan::Reject { status, message } && status == 400 && message@
                        == "Model does not support streaming"@
                } else {
                    match transform_spec(payload@, e) {
                        None => r matches ChatPlan::Reject { status, message } && status == 400
                            && message@ == "Request body must be a JSON object"@,
                        Some(j) => if transform_blocked(payload@, e) {
                            r is InjectionConflict
                        } else {
                            r matches ChatPlan::Forward { body, stream: s, status_poll_path } && body@
                                == j && s == stream && crate::models::opt_text_view(status_poll_path)
                                == e.status_poll_path
                        },
                    }
                },
            }
        }),
{
    let mut model_id = String::new();
    let mut stream = false;
    if let JsonValue::Object(es) = &payload {
        if let Some(JsonValue::Str(s)) = obj_get(es, &"model".to_string()) {
            model_id = s.clone();
        }
        if let Some(JsonValue::Bool(b)) = obj_get(es, &"stream".to_string()) {
            stream = *b;
        }
    }
    let model = match registry.get(model_id.as_str()) {
        Some(m) => m,
        None => {
            let mut message = "Model '".to_string();
            message.append(model_id.as_str());
            message.append("' not found");
            return ChatPlan::Reject { status: 404, message };
        },
    };
    if stream && !model.supports_streaming {
        return ChatPlan::Reject {
            status: 400,
            message: "Model does not support streaming".to_string(),
        };
    }
    if injection_conflict(&payload, model) {
        return ChatPlan::InjectionConflict;
    }
    match transform_request(payload, model) {
        Ok(body) => ChatPlan::Forward {
            body,
            stream,
            status_poll_path: match &model.status_poll_path {
                Some(p) => Some(p.clone()),
                None => None,
            },
        },
        Err(e) => ChatPlan::Reject { status: 400, message: e.message() },
    }
}

} // verus!

verus! {

/// One model of the OpenAI-style model list.
#[derive(Debug)]
pub struct OpenAiModel {
    pub id: String,
    pub object: String,
    pub created: i64,
    pub owned_by: String,
}

/// The OpenAI-style model list.
#[derive(Debug)]
pub struct ModelsResponse {
    pub object: String,
    pub data: Vec<OpenAiModel>,
}

/// The model list for `/v1/models`: every registry entry under its client
/// name, in registry order, stamped with the time `created`.
pub fn models_response(registry: &ModelRegistry, created: i64) -> (r: ModelsResponse)
    ensures
        r.object@ == "list"@,
        r.data@.len() == registry@.len(),
        forall|i: int|
            0 <= i < r.data@.len() ==> {
                &&& (#[trigger] r.data@[i]).id@ == registry@[i].openai_id
                &&& r.data@[i].object@ == "model"@
                &&& r.data@[i].created == created
                &&& r.data@[i].owned_by@ == "nimpipe"@
            },
{
    let entries = registry.list();
    let mut data: Vec<OpenAiModel> = Vec::new();
    let mut i: usize = 0;
    while i < entries.len()
        invariant
            i <= entries@.len(),
            entries@.len() == registry@.len(),
            forall|j: int| 0 <= j < entries@.len() ==> (#[trigger] entries@[j])@ == registry@[j],
            data@.len() == i,
            forall|j: int|
                0 <= j < i ==> {
                    &&& (#[trigger] data@[j]).id@ == registry@[j].openai_id
                    &&& data@[j].object@ == "model"@
                    &&& data@[j].created == created
                    &&& data@[j].owned_by@ == "nimpipe"@
                },
        decreases entries.len() - i,
    {
        data.push(
            OpenAiModel {
                id: entries[i].openai_id.clone(),
                object: "model".to_string(),
                created,
                owned_by: "nimpipe".to_string(),
            },
        );
        i = i + 1;
    }
    ModelsResponse { object: "list".to_string(), data }
}

/// The content type an embedded asset is served with, by its file
/// extension.
pub fn asset_content_type(extension: Option<&str>) -> (r: &'static str)
    ensures
        r@ == (match extension {
            Some(e) => if e@ == "js"@ {
                "application/javascript"@
            } else if e@ == "css"@ {
                "text/css"@
            } else {
                "application/octet-stream"@
            },
            None => "application/octet-stream"@,
        }),
{
    match extension {
        Some(e) => if crate::text::text_eq(e, "js") {
            "application/javascript"
        } else if crate::text::text_eq(e, "css") {
            "text/css"
        } else {
            "application/octet-stream"
        },
        None => "application/octet-stream",
    }
}

/// Law: a request asks for a stream exactly when its `stream` member is
/// the boolean `true`; `stream: false`, a `stream` of another type, no
/// `stream`, or a body that is not an object ask for none.
pub proof fn law_request_stream_flag(p: Json)
    ensures
        request_stream(p) <==> (p matches Json::Obj(m) && m.contains_key("stream"@) && m["stream"@]
            == Json::Bool(true)),
{
}

/// Law: the model a request is looked up by is the string its `model`
/// member holds; a request without a string `model` names the empty id.
pub proof fn law_request_model(p: Json, id: Seq<char>)
    ensures
        (p matches Json::Obj(m) && m.contains_key("model"@) && m["model"@] == Json::Str(id))
            ==> request_model(p) == id,
        !(p matches Json::Obj(m) && m.contains_key("model"@) && m["model"@] is Str)
            ==> request_model(p) == Seq::<char>::empty(),
{
}

} // verus!
