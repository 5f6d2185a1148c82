//! Messages to a session, answered at once or as a stream.
//!
//! A stream carries frames of three kinds:
//!
//! - `{"type":"token","text":"..."}`: a piece of the answer
//! - `{"type":"done","message":...,"usage":...}`: the stored answer
//! - `{"type":"error","message":"..."}`: the failure that ended it

use vstd::prelude::*;
use vstd::string::*;

use crate::api::turn::{Reply, Route, TurnRequest};
use crate::db::messages::MessageView;
use crate::error::AppError;
use crate::ids;
use crate::ids::show_uuid;
use crate::json;
use crate::json::{
    json_null, json_number, json_object, json_string, json_text_of, push_field, Json,
};
use crate::model::engine;
use crate::model::engine::{EventView, StreamEvent};
use crate::text;
use crate::types;
use crate::types::{
    show_time, CreateMessageRequest, Message, MessageResponse, Role, Timestamp, Usage,
};

verus! {

/// A message to a session, as a turn.
pub fn create(session_id: u128, req: CreateMessageRequest) -> (t: TurnRequest)
    ensures
        t.route == Route::Messages,
        t.session_id == session_id,
        t.content == req.content,
        t.results@.len() == 0,
        t.max_tokens == req.max_tokens,
        t.system_prompt is None,
        t.workspace_hint is None,
{
    TurnRequest {
        route: Route::Messages,
        session_id,
        content: req.content,
        results: Vec::new(),
        max_tokens: req.max_tokens,
        system_prompt: None,
        workspace_hint: None,
    }
}

/// A message to a session whose answer is streamed, as a turn.
pub fn create_stream(session_id: u128, req: CreateMessageRequest) -> (t: TurnRequest)
    ensures
        t.route == Route::Stream,
        t.session_id == session_id,
        t.content == req.content,
        t.results@.len() == 0,
        t.max_tokens == req.max_tokens,
        t.system_prompt is None,
        t.workspace_hint is None,
{
    TurnRequest {
        route: Route::Stream,
        session_id,
        content: req.content,
        results: Vec::new(),
        max_tokens: req.max_tokens,
        system_prompt: None,
        workspace_hint: None,
    }
}

/// The answer to a message. A reply that asks for tools is none.
pub fn respond(reply: Reply) -> (r: Option<MessageResponse>)
    ensures
        match reply {
            Reply::Message { session_id, message, usage } => r == Some(
                (MessageResponse { message, usage }),
            ),
            _ => r is None,
        },
{
    match reply {
        Reply::Message { session_id: _, message, usage } => Some(
            MessageResponse { message, usage },
        ),
        _ => None,
    }
}

// ---------------------------------------------------------------------------
// Frames
// ---------------------------------------------------------------------------

/// The frame of a piece of the answer.
pub open spec fn token_frame(piece: Seq<char>) -> Json {
    Json::Object(
        json::pairs_object(seq![("type"@, Json::Text("token"@)), ("text"@, Json::Text(piece))]),
    )
}

/// The frame of a failure.
pub open spec fn error_frame(message: Seq<char>) -> Json {
    Json::Object(
        json::pairs_object(
            seq![("type"@, Json::Text("error"@)), ("message"@, Json::Text(message))],
        ),
    )
}

/// A stored message, as JSON. A point in time outside of the calendar is null.
pub open spec fn message_json(m: MessageView) -> Json {
    Json::Object(
        json::pairs_object(
            seq![
                ("id"@, Json::Text(ids::uuid_text(m.id))),
                ("session_id"@, Json::Text(ids::uuid_text(m.session_id))),
                ("role"@, Json::Text(types::role_text(m.role))),
                ("content"@, Json::Text(m.content)),
                ("token_count"@, Json::Number(text::decimal_int(m.token_count as int))),
                ("created_at"@, time_json(m.created_at)),
                ("metadata"@, m.metadata),
            ],
        ),
    )
}

/// A point in time, as JSON.
pub open spec fn time_json(at: Timestamp) -> Json {
    match types::time_text(at.secs, at.nanos) {
        Some(t) => Json::Text(t),
        None => Json::Null,
    }
}

/// The tokens of a generation, as JSON.
pub open spec fn usage_json(u: Usage) -> Json {
    Json::Object(
        json::pairs_object(
            seq![
                ("prompt_tokens"@, Json::Number(text::decimal(u.prompt_tokens as nat))),
                ("completion_tokens"@, Json::Number(text::decimal(u.completion_tokens as nat))),
                ("total_tokens"@, Json::Number(text::decimal(u.total_tokens as nat))),
            ],
        ),
    )
}

/// The frame of the stored answer.
pub open spec fn done_frame(message: Json, u: Usage) -> Json {
    Json::Object(
        json::pairs_object(
            seq![
                ("type"@, Json::Text("done"@)),
                ("message"@, message),
                ("usage"@, usage_json(u)),
            ],
        ),
    )
}

/// The text of a frame.
pub open spec fn frame_text(frame: Json) -> Seq<char> {
    json::json_text_or(frame, ""@)
}

/// A frame with one text beside its type.
fn text_frame(kind: &str, key: &str, value: &str) -> (out: String)
    requires
        key@ != "type"@,
    ensures
        out@ == frame_text(
            Json::Object(
                json::pairs_object(seq![("type"@, Json::Text(kind@)), (key@, Json::Text(value@))]),
            ),
        ),
{
    let mut fields: Vec<(String, serde_json::Value)> = Vec::new();
    assert(json::pair_views(fields@) =~= Seq::empty());
    push_field(&mut fields, "type", json_string(kind));
    push_field(&mut fields, key, json_string(value));
    assert(json::pair_views(fields@) =~= seq![
        ("type"@, Json::Text(kind@)),
        (key@, Json::Text(value@)),
    ]);
    json_text_of(&json_object(fields), "")
}

/// The tokens of a generation, as JSON.
fn usage_value(u: &Usage) -> (v: serde_json::Value)
    ensures
        json::json_view(v) == usage_json(*u),
{
    let mut fields: Vec<(String, serde_json::Value)> = Vec::new();
    assert(json::pair_views(fields@) =~= Seq::empty());
    push_field(&mut fields, "prompt_tokens", json_number(u.prompt_tokens as i64));
    push_field(&mut fields, "completion_tokens", json_number(u.completion_tokens as i64));
    push_field(&mut fields, "total_tokens", json_number(u.total_tokens as i64));
    assert(json::pair_views(fields@) =~= seq![
        ("prompt_tokens"@, Json::Number(text::decimal(u.prompt_tokens as nat))),
        ("completion_tokens"@, Json::Number(text::decimal(u.completion_tokens as nat))),
        ("total_tokens"@, Json::Number(text::decimal(u.total_tokens as nat))),
    ]);
    proof {
        reveal_strlit("prompt_tokens");
        reveal_strlit("completion_tokens");
        reveal_strlit("total_tokens");
        assert("prompt_tokens"@.len() == 13 && "completion_tokens"@.len() == 17);
        assert("total_tokens"@.len() == 12);
    }
    json_object(fields)
}

/// A stored message, as JSON.
fn message_value(m: Message) -> (v: serde_json::Value)
    ensures
        json::json_view(v) == message_json(m@),
{
    let mut fields: Vec<(String, serde_json::Value)> = Vec::new();
    assert(json::pair_views(fields@) =~= Seq::empty());
    push_field(&mut fields, "id", json_string(show_uuid(m.id).as_str()));
    push_field(&mut fields, "session_id", json_string(show_uuid(m.session_id).as_str()));
    push_field(&mut fields, "role", json_string(m.role.as_str()));
    push_field(&mut fields, "content", json_string(m.content.as_str()));
    push_field(&mut fields, "token_count", json_number(m.token_count));
    let created_at = match show_time(m.created_at) {
        Some(t) => json_string(t.as_str()),
        None => json_null(),
    };
    push_field(&mut fields, "created_at", created_at);
    push_field(&mut fields, "metadata", m.metadata);
    assert(json::pair_views(fields@) =~= seq![
        ("id"@, Json::Text(ids::uuid_text(m.id))),
        ("session_id"@, Json::Text(ids::uuid_text(m.session_id))),
        ("role"@, Json::Text(types::role_text(m.role))),
        ("content"@, Json::Text(m.content@)),
        ("token_count"@, Json::Number(text::decimal_int(m.token_count as int))),
        ("created_at"@, time_json(m.created_at)),
        ("metadata"@, json::json_view(m.metadata)),
    ]);
    proof {
        reveal_strlit("id");
        reveal_strlit("session_id");
        reveal_strlit("role");
        reveal_strlit("content");
        reveal_strlit("token_count");
        reveal_strlit("created_at");
        reveal_strlit("metadata");
        assert("id"@.len() == 2 && "role"@.len() == 4 && "content"@.len() == 7);
        assert("metadata"@.len() == 8 && "token_count"@.len() == 11);
        assert("session_id"@.len() == 10 && "session_id"@[0] == 's');
        assert("created_at"@.len() == 10 && "created_at"@[0] == 'c');
    }
    json_object(fields)
}

/// The frame of the stored answer, as text.
fn done_text(m: Message, u: &Usage) -> (out: String)
    ensures
        out@ == frame_text(done_frame(message_json(m@), *u)),
{
    let mut fields: Vec<(String, serde_json::Value)> = Vec::new();
    assert(json::pair_views(fields@) =~= Seq::empty());
    push_field(&mut fields, "type", json_string("done"));
    push_field(&mut fields, "message", message_value(m));
    push_field(&mut fields, "usage", usage_value(u));
    assert(json::pair_views(fields@) =~= seq![
        ("type"@, Json::Text("done"@)),
        ("message"@, message_json(m@)),
        ("usage"@, usage_json(*u)),
    ]);
    proof {
        reveal_strlit("type");
        reveal_strlit("message");
        reveal_strlit("usage");
        assert("type"@.len() == 4 && "message"@.len() == 7 && "usage"@.len() == 5);
    }
    json_text_of(&json_object(fields), "")
}

// ---------------------------------------------------------------------------
// Relaying a generation
// ---------------------------------------------------------------------------

/// How far a stream has come: what it waits for.
pub enum RelayStage {
    /// The next event of the generation.
    Relaying,
    /// The answer to be stored.
    Storing,
    /// The session to be touched; the answer is stored as this message.
    Touching(Message),
    /// Nothing: the last frame is sent.
    Over,
}

/// A stream under way: the answer so far and the numbers of its tokens.
pub struct Relay {
    pub session_id: u128,
    pub buf: String,
    pub prompt_tokens: u32,
    pub completion_tokens: u32,
    pub stage: RelayStage,
}

/// What a stream is told.
#[derive(Debug)]
pub enum RelayEvent {
    /// An event of the generation.
    Generated(StreamEvent),
    /// The generation sends no more events.
    Ended,
    /// What came of storing the answer.
    Stored(Result<Message, AppError>),
    /// What came of touching the session.
    Touched(Result<(), AppError>),
}

/// What a stream asks for.
#[derive(Debug)]
pub enum RelayAction {
    /// Send a frame.
    Send(String),
    /// Nothing.
    Wait,
    /// Store the answer.
    Store { session_id: u128, role: Role, content: String, tokens: i64 },
    /// Mark the session as the one touched last.
    Touch(u128),
    /// Send a frame, and end the stream.
    Last(String),
}

/// A stage with its texts as characters.
pub enum RelayStageView {
    Relaying,
    Storing,
    Touching(MessageView),
    Over,
}

impl View for RelayStage {
    type V = RelayStageView;

    open spec fn view(&self) -> RelayStageView {
        match *self {
            RelayStage::Relaying => RelayStageView::Relaying,
            RelayStage::Storing => RelayStageView::Storing,
            RelayStage::Touching(m) => RelayStageView::Touching(m@),
            RelayStage::Over => RelayStageView::Over,
        }
    }
}

/// A stream under way, with its texts as characters.
pub struct RelayView {
    pub session_id: u128,
    pub buf: Seq<char>,
    pub prompt_tokens: u32,
    pub completion_tokens: u32,
    pub stage: RelayStageView,
}

impl View for Relay {
    type V = RelayView;

    open spec fn view(&self) -> RelayView {
        RelayView {
            session_id: self.session_id,
            buf: self.buf@,
            prompt_tokens: self.prompt_tokens,
            completion_tokens: self.completion_tokens,
            stage: self.stage@,
        }
    }
}

impl RelayView {
    /// The tokens are few enough to be added up.
    pub open spec fn wf(self) -> bool {
        self.prompt_tokens + self.completion_tokens <= u32::MAX
    }

    /// The tokens of the generation.
    pub open spec fn usage(self) -> Usage {
        Usage {
            prompt_tokens: self.prompt_tokens,
            completion_tokens: self.completion_tokens,
            total_tokens: (self.prompt_tokens + self.completion_tokens) as u32,
        }
    }
}

/// An action with its texts as characters.
pub enum RelayActionView {
    Send(Seq<char>),
    Wait,
    Store { session_id: u128, role: Role, content: Seq<char>, tokens: int },
    Touch(u128),
    Last(Seq<char>),
}

impl View for RelayAction {
    type V = RelayActionView;

    open spec fn view(&self) -> RelayActionView {
        match *self {
            RelayAction::Send(s) => RelayActionView::Send(s@),
            RelayAction::Wait => RelayActionView::Wait,
            RelayAction::Store { session_id, role, content, tokens } => RelayActionView::Store {
                session_id,
                role,
                content: content@,
                tokens: tokens as int,
            },
            RelayAction::Touch(id) => RelayActionView::Touch(id),
            RelayAction::Last(s) => RelayActionView::Last(s@),
        }
    }
}

/// A stream before its first event.
pub open spec fn relay_start(session_id: u128) -> RelayView {
    RelayView {
        session_id,
        buf: Seq::empty(),
        prompt_tokens: 0,
        completion_tokens: 0,
        stage: RelayStageView::Relaying,
    }
}

/// The stream after one more event of the generation, and what it asks for.
pub open spec fn relay_generated(r: RelayView, event: EventView) -> (RelayView, RelayActionView) {
    match event {
        EventView::Token(t) => (
            RelayView { buf: r.buf + t, ..r },
            RelayActionView::Send(frame_text(token_frame(t))),
        ),
        EventView::Done { prompt_tokens, completion_tokens, text } => (
            RelayView { prompt_tokens, completion_tokens, ..r },
            RelayActionView::Wait,
        ),
        EventView::Error(m) => (
            RelayView { stage: RelayStageView::Over, ..r },
            RelayActionView::Last(frame_text(error_frame(m))),
        ),
    }
}

/// The stream after one more event, and what it asks for. A failed generation ends it
/// with nothing stored. Else the answer is stored once the generation ends, and the stream
/// ends with the stored answer, or with why it could not be stored; whether the session
/// could be touched makes no difference. An event that the stream does not wait for is
/// passed over.
pub open spec fn relay_step(r: RelayView, event: RelayEvent) -> (RelayView, RelayActionView) {
    match (r.stage, event) {
        (RelayStageView::Relaying, RelayEvent::Generated(e)) => relay_generated(r, e@),
        (RelayStageView::Relaying, RelayEvent::Ended) => (
            RelayView { stage: RelayStageView::Storing, ..r },
            RelayActionView::Store {
                session_id: r.session_id,
                role: Role::Assistant,
                content: r.buf,
                tokens: r.completion_tokens as int,
            },
        ),
        (RelayStageView::Storing, RelayEvent::Stored(Ok(m))) => (
            RelayView { stage: RelayStageView::Touching(m@), ..r },
            RelayActionView::Touch(r.session_id),
        ),
        (RelayStageView::Storing, RelayEvent::Stored(Err(e))) => (
            RelayView { stage: RelayStageView::Over, ..r },
            RelayActionView::Last(frame_text(error_frame("persist failed: "@ + e@.message()))),
        ),
        (RelayStageView::Touching(m), RelayEvent::Touched(_)) => (
            RelayView { stage: RelayStageView::Over, ..r },
            RelayActionView::Last(frame_text(done_frame(message_json(m), r.usage()))),
        ),
        _ => (r, RelayActionView::Wait),
    }
}

impl Relay {
    /// A stream of the answer to a message of a session, before its first event.
    pub fn start(session_id: u128) -> (r: Relay)
        ensures
            r@ == relay_start(session_id),
            r@.wf(),
    {
        Relay {
            session_id,
            buf: String::new(),
            prompt_tokens: 0,
            completion_tokens: 0,
            stage: RelayStage::Relaying,
        }
    }

    /// Takes in an event, and says what has to be done. The tokens of a generation have
    /// to be few enough to be added up.
    pub fn next(self, event: RelayEvent) -> (r: (Relay, RelayAction))
        requires
            self@.wf(),
            event matches RelayEvent::Generated(
                StreamEvent::Done { prompt_tokens, completion_tokens, text },
            ) ==> prompt_tokens + completion_tokens <= u32::MAX,
        ensures
            (r.0@, r.1@) == relay_step(self@, event),
            r.0@.wf(),
    {
        let mut next = self;
        proof {
            reveal_strlit("type");
            reveal_strlit("text");
            reveal_strlit("message");
            assert("type"@[1] == 'y' && "text"@[1] == 'e' && "message"@[1] == 'e');
        }
        match (next.stage, event) {
            (RelayStage::Relaying, RelayEvent::Generated(e)) => match e {
                StreamEvent::Token(t) => {
                    next.stage = RelayStage::Relaying;
                    next.buf.append(t.as_str());
                    (next, RelayAction::Send(text_frame("token", "text", t.as_str())))
                },
                StreamEvent::Done { prompt_tokens, completion_tokens, text: _ } => {
                    next.stage = RelayStage::Relaying;
                    next.prompt_tokens = prompt_tokens;
                    next.completion_tokens = completion_tokens;
                    (next, RelayAction::Wait)
                },
                StreamEvent::Error(m) => {
                    next.stage = RelayStage::Over;
                    (next, RelayAction::Last(text_frame("error", "message", m.as_str())))
                },
            },
            (RelayStage::Relaying, RelayEvent::Ended) => {
                next.stage = RelayStage::Storing;
                let action = RelayAction::Store {
                    session_id: next.session_id,
                    role: Role::Assistant,
                    content: next.buf.clone(),
                    tokens: next.completion_tokens as i64,
                };
                (next, action)
            },
            (RelayStage::Storing, RelayEvent::Stored(Ok(m))) => {
                next.stage = RelayStage::Touching(m);
                let action = RelayAction::Touch(next.session_id);
                (next, action)
            },
            (RelayStage::Storing, RelayEvent::Stored(Err(e))) => {
                next.stage = RelayStage::Over;
                let mut why = "persist failed: ".to_owned();
                why.append(e.message().as_str());
                (next, RelayAction::Last(text_frame("error", "message", why.as_str())))
            },
            (RelayStage::Touching(m), RelayEvent::Touched(_)) => {
                next.stage = RelayStage::Over;
                let u = Usage {
                    prompt_tokens: next.prompt_tokens,
                    completion_tokens: next.completion_tokens,
                    total_tokens: next.prompt_tokens + next.completion_tokens,
                };
                (next, RelayAction::Last(done_text(m, &u)))
            },
            (stage, _) => {
                next.stage = stage;
                (next, RelayAction::Wait)
            },
        }
    }
}

// ---------------------------------------------------------------------------
// Laws
// ---------------------------------------------------------------------------

/// A stream after events, and all that it asked for on the way.
pub open spec fn relay_run(r: RelayView, events: Seq<RelayEvent>) -> (
    RelayView,
    Seq<RelayActionView>,
)
    decreases events.len(),
{
    if events.len() == 0 {
        (r, Seq::empty())
    } else {
        let (before, log) = relay_run(r, events.drop_last());
        let (after, action) = relay_step(before, events.last());
        (after, log.push(action))
    }
}

/// The texts that a generation sends as tokens.
pub open spec fn token_texts(events: Seq<RelayEvent>) -> Seq<char>
    decreases events.len(),
{
    if events.len() == 0 {
        Seq::empty()
    } else {
        let front = token_texts(events.drop_last());
        match events.last() {
            RelayEvent::Generated(StreamEvent::Token(t)) => front + t@,
            _ => front,
        }
    }
}

/// What holds of a stream at any time: a frame before the last one is the frame of a
/// token; the last frame is sent once, and nothing is asked for after it; the answer is
/// stored once at most, and no token is sent after it.
pub open spec fn stream_shape(log: Seq<RelayActionView>) -> bool {
    &&& forall|i: int|
        0 <= i < log.len() ==> ((#[trigger] log[i]) matches RelayActionView::Send(f)
            ==> exists|t: Seq<char>| f == #[trigger] frame_text(token_frame(t)))
    &&& forall|i: int, j: int|
        0 <= i < j < log.len() && (#[trigger] log[i]) is Last ==> (#[trigger] log[j]) is Wait
    &&& forall|i: int, j: int|
        0 <= i < j < log.len() && (#[trigger] log[i]) is Store ==> (#[trigger] log[j]) !is Send
            && log[j] !is Store
}

/// Some action of a log is the last frame.
pub open spec fn has_last(log: Seq<RelayActionView>) -> bool {
    exists|i: int| 0 <= i < log.len() && (#[trigger] log[i]) is Last
}

/// Some action of a log stores the answer.
pub open spec fn has_store(log: Seq<RelayActionView>) -> bool {
    exists|i: int| 0 <= i < log.len() && (#[trigger] log[i]) is Store
}

/// Over any events, what a stream sends is the frames of tokens followed by one last
/// frame; it is over exactly when that is sent.
pub proof fn law_stream_ends_once(session_id: u128, events: Seq<RelayEvent>)
    ensures
        stream_shape(relay_run(relay_start(session_id), events).1),
        relay_run(relay_start(session_id), events).0.stage is Over <==> has_last(
            relay_run(relay_start(session_id), events).1,
        ),
{
    lemma_stream(session_id, events);
}

proof fn lemma_stream(session_id: u128, events: Seq<RelayEvent>)
    ensures
        ({
            let (r, log) = relay_run(relay_start(session_id), events);
            &&& stream_shape(log)
            &&& r.stage is Over <==> has_last(log)
            &&& r.stage is Relaying ==> !has_store(log)
            &&& r.stage is Relaying ==> r.buf == token_texts(events)
            &&& r.session_id == session_id
            &&& log.len() == events.len()
        }),
    decreases events.len(),
{
    if events.len() > 0 {
        let front = events.drop_last();
        lemma_stream(session_id, front);
        let (before, log) = relay_run(relay_start(session_id), front);
        let (after, action) = relay_step(before, events.last());
        let grown = log.push(action);
        if has_last(log) {
            let i = choose|i: int| 0 <= i < log.len() && (#[trigger] log[i]) is Last;
            assert(grown[i] == log[i]);
        }
        if action is Last {
            assert(grown[log.len() as int] is Last);
        }
        if has_last(grown) {
            let i = choose|i: int| 0 <= i < grown.len() && (#[trigger] grown[i]) is Last;
            if i < log.len() {
                assert(log[i] == grown[i]);
            }
        }
        if has_store(grown) {
            let i = choose|i: int| 0 <= i < grown.len() && (#[trigger] grown[i]) is Store;
            if i < log.len() {
                assert(log[i] == grown[i]);
            }
        }
        assert forall|i: int, j: int|
            0 <= i < j < grown.len() && (#[trigger] grown[i]) is Last implies (
        #[trigger] grown[j]) is Wait by {
            assert(log[i] == grown[i]);
            if j < log.len() {
                assert(log[j] == grown[j]);
            } else {
                assert(has_last(log));
            }
        }
        assert forall|i: int, j: int|
            0 <= i < j < grown.len() && (#[trigger] grown[i]) is Store implies (
        #[trigger] grown[j]) !is Send && grown[j] !is Store by {
            assert(log[i] == grown[i]);
            if j < log.len() {
                assert(log[j] == grown[j]);
            } else {
                assert(has_store(log));
            }
        }
        assert forall|i: int| 0 <= i < grown.len() implies ((
        #[trigger] grown[i]) matches RelayActionView::Send(f) ==> exists|t: Seq<char>|
            f == #[trigger] frame_text(token_frame(t))) by {
            if i < log.len() {
                assert(log[i] == grown[i]);
            }
        }
    }
}

/// What a stream stores is what it sent: all tokens, one after the other, as the answer of
/// the assistant in the session of the stream.
pub proof fn law_stored_answer_is_what_was_streamed(
    session_id: u128,
    events: Seq<RelayEvent>,
    i: int,
)
    requires
        0 <= i < events.len(),
    ensures
        relay_run(relay_start(session_id), events).1.len() == events.len(),
        relay_run(relay_start(session_id), events).1[i] matches RelayActionView::Store {
            session_id: id,
            role,
            content,
            tokens,
        } ==> id == session_id && role == Role::Assistant && content == token_texts(
            events.take(i),
        ),
    decreases events.len(),
{
    let front = events.drop_last();
    lemma_stream(session_id, events);
    lemma_stream(session_id, front);
    if i < events.len() - 1 {
        law_stored_answer_is_what_was_streamed(session_id, front, i);
        assert(front.take(i) =~= events.take(i));
    } else {
        assert(events.take(i) =~= front);
    }
}

/// A generation that fails while its tokens are sent stores nothing, then or later, and the
/// stream ends with its error.
pub proof fn law_failed_generation_stores_nothing(
    session_id: u128,
    before: Seq<RelayEvent>,
    why: String,
    after: Seq<RelayEvent>,
)
    requires
        relay_run(relay_start(session_id), before).0.stage is Relaying,
    ensures
        ({
            let failure = RelayEvent::Generated(StreamEvent::Error(why));
            let (r, log) = relay_run(relay_start(session_id), before.push(failure) + after);
            &&& !has_store(log)
            &&& r.stage is Over
            &&& before.len() < log.len()
            &&& log[before.len() as int] == RelayActionView::Last(frame_text(error_frame(why@)))
        }),
    decreases after.len(),
{
    let failure = RelayEvent::Generated(StreamEvent::Error(why));
    let start = relay_start(session_id);
    let events = before.push(failure) + after;
    lemma_stream(session_id, before);
    lemma_stream(session_id, events);
    if after.len() == 0 {
        assert(events =~= before.push(failure));
        assert(events.drop_last() =~= before);
        let log = relay_run(start, before).1;
        let grown = relay_run(start, events).1;
        if has_store(grown) {
            let i = choose|i: int| 0 <= i < grown.len() && (#[trigger] grown[i]) is Store;
            assert(log[i] == grown[i]);
        }
    } else {
        assert(events.drop_last() =~= before.push(failure) + after.drop_last());
        law_failed_generation_stores_nothing(session_id, before, why, after.drop_last());
        let log = relay_run(start, events.drop_last()).1;
        let grown = relay_run(start, events).1;
        lemma_stream(session_id, events.drop_last());
        assert(grown[before.len() as int] == log[before.len() as int]);
        if has_store(grown) {
            let i = choose|i: int| 0 <= i < grown.len() && (#[trigger] grown[i]) is Store;
            assert(log[i] == grown[i]);
        }
    }
}

/// A stream whose generation ends, whose answer is stored as `m` and whose session is
/// touched or could not be, ends with the stored answer and the sum of its tokens.
pub proof fn law_finished_stream_shows_stored_answer(
    r: RelayView,
    m: Message,
    touched: Result<(), AppError>,
)
    requires
        r.wf(),
        r.stage is Relaying,
    ensures
        ({
            let (storing, store) = relay_step(r, RelayEvent::Ended);
            let (touching, touch) = relay_step(storing, RelayEvent::Stored(Ok(m)));
            let (over, last) = relay_step(touching, RelayEvent::Touched(touched));
            &&& store == (RelayActionView::Store {
                session_id: r.session_id,
                role: Role::Assistant,
                content: r.buf,
                tokens: r.completion_tokens as int,
            })
            &&& touch == RelayActionView::Touch(r.session_id)
            &&& over.stage is Over
            &&& last == RelayActionView::Last(frame_text(done_frame(message_json(m@), r.usage())))
            &&& r.usage().total_tokens == r.prompt_tokens + r.completion_tokens
        }),
{
}

/// The events of pieces of text.
pub open spec fn token_events(pieces: Seq<Seq<char>>, events: Seq<RelayEvent>) -> bool {
    &&& events.len() == pieces.len()
    &&& forall|i: int|
        0 <= i < events.len() ==> ((#[trigger] events[i]) matches RelayEvent::Generated(
            StreamEvent::Token(t),
        ) && t@ == pieces[i])
}

/// A streamed generation stores what an unstreamed one answers: the pieces that a
/// generation sends on, relayed one after the other, are its text.
pub proof fn law_streaming_changes_nothing(
    g: engine::GenerationView,
    samples: Seq<engine::SampleView>,
    session_id: u128,
    events: Seq<RelayEvent>,
)
    requires
        g.text.len() == 0,
        token_events(engine::sent(g, samples), events),
    ensures
        relay_run(relay_start(session_id), events).0 == (RelayView {
            buf: engine::run(g, samples).text,
            ..relay_start(session_id)
        }),
{
    let pieces = engine::sent(g, samples);
    engine::law_text_is_what_was_sent(g, samples);
    assert(g.text + engine::concatenated(pieces) =~= engine::concatenated(pieces));
    lemma_tokens_relayed(session_id, pieces, events);
}

proof fn lemma_tokens_relayed(session_id: u128, pieces: Seq<Seq<char>>, events: Seq<RelayEvent>)
    requires
        token_events(pieces, events),
    ensures
        relay_run(relay_start(session_id), events).0 == (RelayView {
            buf: engine::concatenated(pieces),
            ..relay_start(session_id)
        }),
    decreases pieces.len(),
{
    if pieces.len() > 0 {
        let front = pieces.drop_last();
        let seen = events.drop_last();
        assert forall|i: int| 0 <= i < seen.len() implies ((
        #[trigger] seen[i]) matches RelayEvent::Generated(StreamEvent::Token(t)) && t@
            == front[i]) by {
            assert(events[i] == seen[i]);
        }
        lemma_tokens_relayed(session_id, front, seen);
        assert(events[events.len() - 1] == events.last());
        engine::lemma_concatenated_last(pieces);
    } else {
        assert(engine::concatenated(pieces) =~= Seq::empty());
    }
}

// ---------------------------------------------------------------------------
// The course of a stream
// ---------------------------------------------------------------------------

/// The events of a generation that sends tokens.
pub open spec fn sends(tokens: Seq<String>) -> Seq<RelayEvent> {
    tokens.map_values(|t: String| RelayEvent::Generated(StreamEvent::Token(t)))
}

/// Strings one after the other.
pub open spec fn together(tokens: Seq<String>) -> Seq<char>
    decreases tokens.len(),
{
    if tokens.len() == 0 {
        Seq::empty()
    } else {
        together(tokens.drop_last()) + tokens.last()@
    }
}

/// Each token of a generation is sent at once, as a frame of its own.
pub open spec fn relays(log: Seq<RelayActionView>, tokens: Seq<String>) -> bool {
    &&& log.len() >= tokens.len()
    &&& forall|i: int|
        0 <= i < tokens.len() ==> #[trigger] log[i] == RelayActionView::Send(
            frame_text(token_frame(tokens[i]@)),
        )
}

/// A stream for which all goes well sends each token as it comes; stores all of them
/// together once the generation has ended, as the answer of the assistant, with the number of
/// tokens that the generation stated; touches the session; and ends with the stored answer
/// and the numbers that were stated, whether the session could be touched or not.
pub proof fn law_stream_runs_its_course(
    session_id: u128,
    tokens: Seq<String>,
    prompt_tokens: u32,
    completion_tokens: u32,
    text: String,
    m: Message,
    touched: Result<(), AppError>,
)
    ensures
        ({
            let n = tokens.len() as int;
            let done = StreamEvent::Done { prompt_tokens, completion_tokens, text };
            let log = relay_run(
                relay_start(session_id),
                sends(tokens).push(RelayEvent::Generated(done)).push(RelayEvent::Ended).push(
                    RelayEvent::Stored(Ok(m)),
                ).push(RelayEvent::Touched(touched)),
            ).1;
            let u = Usage {
                prompt_tokens,
                completion_tokens,
                total_tokens: (prompt_tokens + completion_tokens) as u32,
            };
            &&& relays(log, tokens)
            &&& log.len() == n + 4
            &&& log[n] is Wait
            &&& log[n + 1] == RelayActionView::Store {
                session_id,
                role: Role::Assistant,
                content: together(tokens),
                tokens: completion_tokens as int,
            }
            &&& log[n + 2] == RelayActionView::Touch(session_id)
            &&& log[n + 3] == RelayActionView::Last(frame_text(done_frame(message_json(m@), u)))
        }),
{
    let start = relay_start(session_id);
    let done = RelayEvent::Generated(
        StreamEvent::Done { prompt_tokens, completion_tokens, text },
    );
    let a = sends(tokens);
    let b = a.push(done);
    let c = b.push(RelayEvent::Ended);
    let d = c.push(RelayEvent::Stored(Ok(m)));
    lemma_relays(session_id, tokens);
    lemma_relay_run(start, a, done);
    lemma_relay_run(start, b, RelayEvent::Ended);
    lemma_relay_run(start, c, RelayEvent::Stored(Ok(m)));
    lemma_relay_run(start, d, RelayEvent::Touched(touched));
}

/// A stream ends early, with the reason: where its generation fails, with what the
/// generation says, and where its answer cannot be stored, with what the store says.
pub proof fn law_stream_tells_why_it_ends(
    session_id: u128,
    tokens: Seq<String>,
    why: String,
    e: AppError,
)
    ensures
        ({
            let n = tokens.len() as int;
            let failed = relay_run(
                relay_start(session_id),
                sends(tokens).push(RelayEvent::Generated(StreamEvent::Error(why))),
            ).1;
            let unstored = relay_run(
                relay_start(session_id),
                sends(tokens).push(RelayEvent::Ended).push(RelayEvent::Stored(Err(e))),
            ).1;
            &&& relays(failed, tokens)
            &&& failed.len() == n + 1
            &&& failed[n] == RelayActionView::Last(frame_text(error_frame(why@)))
            &&& relays(unstored, tokens)
            &&& unstored.len() == n + 2
            &&& unstored[n] is Store
            &&& unstored[n + 1] == RelayActionView::Last(
                frame_text(error_frame("persist failed: "@ + e@.message())),
            )
        }),
{
    let start = relay_start(session_id);
    let a = sends(tokens);
    lemma_relays(session_id, tokens);
    lemma_relay_run(start, a, RelayEvent::Generated(StreamEvent::Error(why)));
    lemma_relay_run(start, a, RelayEvent::Ended);
    lemma_relay_run(start, a.push(RelayEvent::Ended), RelayEvent::Stored(Err(e)));
}

proof fn lemma_relay_run(r: RelayView, events: Seq<RelayEvent>, event: RelayEvent)
    ensures
        relay_run(r, events.push(event)).0 == relay_step(relay_run(r, events).0, event).0,
        relay_run(r, events.push(event)).1 == relay_run(r, events).1.push(
            relay_step(relay_run(r, events).0, event).1,
        ),
{
    assert(events.push(event).drop_last() =~= events);
    assert(events.push(event).last() == event);
}

proof fn lemma_relays(session_id: u128, tokens: Seq<String>)
    ensures
        ({
            let (r, log) = relay_run(relay_start(session_id), sends(tokens));
            &&& log.len() == tokens.len()
            &&& relays(log, tokens)
            &&& r == (RelayView { buf: together(tokens), ..relay_start(session_id) })
        }),
    decreases tokens.len(),
{
    if tokens.len() > 0 {
        let front = tokens.drop_last();
        lemma_relays(session_id, front);
        let event = RelayEvent::Generated(StreamEvent::Token(tokens.last()));
        assert(sends(tokens) =~= sends(front).push(event));
        lemma_relay_run(relay_start(session_id), sends(front), event);
        let before = relay_run(relay_start(session_id), sends(front)).1;
        let log = relay_run(relay_start(session_id), sends(tokens)).1;
        assert forall|i: int| 0 <= i < tokens.len() implies #[trigger] log[i]
            == RelayActionView::Send(frame_text(token_frame(tokens[i]@))) by {
            if i < front.len() {
                assert(log[i] == before[i]);
                assert(front[i] == tokens[i]);
            }
        }
    } else {
        assert(sends(tokens) =~= Seq::<RelayEvent>::empty());
    }
}

/// The frames of a stream: each says of which type it is. That of a token holds the text,
/// that of a failure the message, and that of the end the stored answer and the numbers of
/// tokens.
pub proof fn law_frames_hold(t: Seq<char>, message: Json, u: Usage)
    ensures
        token_frame(t) matches Json::Object(o) && o.dom() == set!["type"@, "text"@]
            && o["type"@] == Json::Text("token"@) && o["text"@] == Json::Text(t),
        error_frame(t) matches Json::Object(o) && o.dom() == set!["type"@, "message"@]
            && o["type"@] == Json::Text("error"@) && o["message"@] == Json::Text(t),
        done_frame(message, u) matches Json::Object(o) && o.dom() == set![
            "type"@,
            "message"@,
            "usage"@,
        ] && o["type"@] == Json::Text("done"@) && o["message"@] == message && (
        o["usage"@] matches Json::Object(n) && n.dom() == set![
            "prompt_tokens"@,
            "completion_tokens"@,
            "total_tokens"@,
        ] && n["prompt_tokens"@] == Json::Number(text::decimal(u.prompt_tokens as nat))
            && n["completion_tokens"@] == Json::Number(text::decimal(u.completion_tokens as nat))
            && n["total_tokens"@] == Json::Number(text::decimal(u.total_tokens as nat))),
{
    lemma_frame_keys();
    let a = seq![("type"@, Json::Text("token"@)), ("text"@, Json::Text(t))];
    json::law_object_has_its_fields(a);
    assert(a[0].0 == "type"@ && a[1].0 == "text"@);
    assert(json::pairs_object(a).dom() =~= set!["type"@, "text"@]);
    let b = seq![("type"@, Json::Text("error"@)), ("message"@, Json::Text(t))];
    json::law_object_has_its_fields(b);
    assert(b[0].0 == "type"@ && b[1].0 == "message"@);
    assert(json::pairs_object(b).dom() =~= set!["type"@, "message"@]);
    let c = seq![("type"@, Json::Text("done"@)), ("message"@, message), ("usage"@, usage_json(u))];
    json::law_object_has_its_fields(c);
    assert(c[0].0 == "type"@ && c[1].0 == "message"@ && c[2].0 == "usage"@);
    assert(json::pairs_object(c).dom() =~= set!["type"@, "message"@, "usage"@]);
    let d = seq![
        ("prompt_tokens"@, Json::Number(text::decimal(u.prompt_tokens as nat))),
        ("completion_tokens"@, Json::Number(text::decimal(u.completion_tokens as nat))),
        ("total_tokens"@, Json::Number(text::decimal(u.total_tokens as nat))),
    ];
    json::law_object_has_its_fields(d);
    assert(d[0].0 == "prompt_tokens"@ && d[1].0 == "completion_tokens"@);
    assert(d[2].0 == "total_tokens"@);
    assert(json::pairs_object(d).dom() =~= set![
        "prompt_tokens"@,
        "completion_tokens"@,
        "total_tokens"@,
    ]);
}

/// A message is shown with its id, its session, the name of its role, its content, its
/// number of tokens, its time and its metadata, each under its own key.
pub proof fn law_message_is_shown(m: MessageView)
    ensures
        message_json(m) matches Json::Object(o) && {
            &&& o.dom() == set![
                "id"@,
                "session_id"@,
                "role"@,
                "content"@,
                "token_count"@,
                "created_at"@,
                "metadata"@,
            ]
            &&& o["id"@] == Json::Text(ids::uuid_text(m.id))
            &&& o["session_id"@] == Json::Text(ids::uuid_text(m.session_id))
            &&& o["role"@] == Json::Text(types::role_text(m.role))
            &&& o["content"@] == Json::Text(m.content)
            &&& o["token_count"@] == Json::Number(text::decimal_int(m.token_count as int))
            &&& o["metadata"@] == m.metadata
            &&& match types::time_text(m.created_at.secs, m.created_at.nanos) {
                Some(t) => o["created_at"@] == Json::Text(t),
                None => o["created_at"@] == Json::Null,
            }
        },
{
    lemma_message_keys();
    let a = seq![
        ("id"@, Json::Text(ids::uuid_text(m.id))),
        ("session_id"@, Json::Text(ids::uuid_text(m.session_id))),
        ("role"@, Json::Text(types::role_text(m.role))),
        ("content"@, Json::Text(m.content)),
        ("token_count"@, Json::Number(text::decimal_int(m.token_count as int))),
        ("created_at"@, time_json(m.created_at)),
        ("metadata"@, m.metadata),
    ];
    json::law_object_has_its_fields(a);
    assert(a[0].0 == "id"@ && a[1].0 == "session_id"@ && a[2].0 == "role"@);
    assert(a[3].0 == "content"@ && a[4].0 == "token_count"@ && a[5].0 == "created_at"@);
    assert(a[6].0 == "metadata"@);
    assert(json::pairs_object(a).dom() =~= set![
        "id"@,
        "session_id"@,
        "role"@,
        "content"@,
        "token_count"@,
        "created_at"@,
        "metadata"@,
    ]);
}

/// The keys of frames are different.
proof fn lemma_frame_keys()
    ensures
        "type"@ != "text"@,
        "type"@ != "message"@,
        "type"@ != "usage"@,
        "message"@ != "usage"@,
        "prompt_tokens"@ != "completion_tokens"@,
        "prompt_tokens"@ != "total_tokens"@,
        "completion_tokens"@ != "total_tokens"@,
{
    reveal_strlit("type");
    reveal_strlit("text");
    reveal_strlit("message");
    reveal_strlit("usage");
    reveal_strlit("prompt_tokens");
    reveal_strlit("completion_tokens");
    reveal_strlit("total_tokens");
    assert("type"@[1] == 'y' && "text"@[1] == 'e');
    assert("type"@.len() == 4 && "message"@.len() == 7 && "usage"@.len() == 5);
    assert("prompt_tokens"@.len() == 13 && "completion_tokens"@.len() == 17);
    assert("total_tokens"@.len() == 12);
}

/// The keys of a message are different.
proof fn lemma_message_keys()
    ensures
        "id"@.len() == 2,
        "role"@.len() == 4,
        "content"@.len() == 7,
        "metadata"@.len() == 8,
        "token_count"@.len() == 11,
        "session_id"@.len() == 10,
        "created_at"@.len() == 10,
        "session_id"@ != "created_at"@,
{
    reveal_strlit("id");
    reveal_strlit("session_id");
    reveal_strlit("role");
    reveal_strlit("content");
    reveal_strlit("token_count");
    reveal_strlit("created_at");
    reveal_strlit("metadata");
    assert("session_id"@[0] == 's' && "created_at"@[0] == 'c');
}

} // verus!
