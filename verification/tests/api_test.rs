use co_worker_lite::api::messages::{Relay, RelayAction, RelayEvent};
use co_worker_lite::api::{check_message, health, memories, sessions, usage};
use co_worker_lite::error::AppError;
use co_worker_lite::model::engine::{ChatTurn, Generated, StreamEvent};
use co_worker_lite::types::{
    default_limit, default_max_tokens, CreateMemoryRequest, CreateSessionRequest,
    ListSessionsQuery, Message, Role, Timestamp,
};

fn stored(content: &str) -> Message {
    Message {
        id: 1,
        session_id: 2,
        role: Role::Assistant,
        content: content.to_string(),
        token_count: 2,
        created_at: Timestamp { secs: 0, nanos: 500_000_000 },
        metadata: serde_json::Value::Object(serde_json::Map::new()),
    }
}

fn sent(action: RelayAction) -> serde_json::Value {
    match action {
        RelayAction::Send(s) => serde_json::from_str(&s).unwrap(),
        other => panic!("{other:?}"),
    }
}

fn last(action: RelayAction) -> String {
    match action {
        RelayAction::Last(s) => s,
        other => panic!("{other:?}"),
    }
}

fn token(text: &str) -> RelayEvent {
    RelayEvent::Generated(StreamEvent::Token(text.to_string()))
}

/// A stream whose generation has ended and whose answer is being stored.
fn storing() -> Relay {
    let (r, action) = Relay::start(2).next(token("Hel"));
    let f = sent(action);
    assert_eq!((f["type"].as_str(), f["text"].as_str()), (Some("token"), Some("Hel")));
    let (r, action) = r.next(token("\"lo"));
    assert_eq!(sent(action)["text"].as_str(), Some("\"lo"));
    let done = StreamEvent::Done {
        prompt_tokens: 7,
        completion_tokens: 2,
        text: "ignored".to_string(),
    };
    let (r, action) = r.next(RelayEvent::Generated(done));
    assert!(matches!(action, RelayAction::Wait));
    let (r, action) = r.next(RelayEvent::Ended);
    match action {
        RelayAction::Store { session_id, role, content, tokens } => {
            assert_eq!((session_id, role, tokens), (2, Role::Assistant, 2));
            assert_eq!(content, "Hel\"lo");
        }
        other => panic!("{other:?}"),
    }
    r
}

const DONE: &str = "{\"message\":{\"content\":\"Hel\\\"lo\",\
    \"created_at\":\"1970-01-01T00:00:00.500Z\",\
    \"id\":\"00000000-0000-0000-0000-000000000001\",\"metadata\":{},\"role\":\"assistant\",\
    \"session_id\":\"00000000-0000-0000-0000-000000000002\",\"token_count\":2},\
    \"type\":\"done\",\
    \"usage\":{\"completion_tokens\":2,\"prompt_tokens\":7,\"total_tokens\":9}}";

#[test]
fn a_stream_relays_tokens_and_shows_the_stored_answer() {
    let (r, action) = storing().next(RelayEvent::Stored(Ok(stored("Hel\"lo"))));
    assert!(matches!(action, RelayAction::Touch(2)));
    let (r, action) = r.next(RelayEvent::Touched(Ok(())));
    assert_eq!(last(action), DONE);
    let (_, action) = r.next(token("late"));
    assert!(matches!(action, RelayAction::Wait));
}

#[test]
fn a_session_that_cannot_be_touched_does_not_end_the_stream() {
    let (r, _) = storing().next(RelayEvent::Stored(Ok(stored("Hel\"lo"))));
    let (_, action) = r.next(RelayEvent::Touched(Err(AppError::Database("gone".to_string()))));
    assert_eq!(last(action), DONE);
}

#[test]
fn a_stream_whose_answer_cannot_be_stored_says_so() {
    let full = AppError::Database("full".to_string());
    let (r, action) = storing().next(RelayEvent::Stored(Err(full)));
    assert_eq!(
        last(action),
        "{\"message\":\"persist failed: database error: full\",\"type\":\"error\"}"
    );
    let (_, action) = r.next(RelayEvent::Touched(Ok(())));
    assert!(matches!(action, RelayAction::Wait));
}

#[test]
fn a_stream_that_fails_stops() {
    let (r, _) = Relay::start(2).next(token("Hel"));
    let boom = StreamEvent::Error("boom".to_string());
    let (r, action) = r.next(RelayEvent::Generated(boom));
    assert_eq!(last(action), "{\"message\":\"boom\",\"type\":\"error\"}");
    let (r, action) = r.next(RelayEvent::Ended);
    assert!(matches!(action, RelayAction::Wait));
    let (_, action) = r.next(RelayEvent::Stored(Ok(stored("Hel"))));
    assert!(matches!(action, RelayAction::Wait));
}

#[test]
fn a_stream_without_a_place_in_the_calendar_shows_null() {
    let mut message = stored("x");
    message.created_at = Timestamp { secs: i64::MAX, nanos: 0 };
    let (r, _) = storing().next(RelayEvent::Stored(Ok(message)));
    let (_, action) = r.next(RelayEvent::Touched(Ok(())));
    let f: serde_json::Value = serde_json::from_str(&last(action)).unwrap();
    assert!(f["message"]["created_at"].is_null());
}

#[test]
fn titles_and_memories_are_trimmed() {
    let req = CreateSessionRequest { title: "  test session\n".to_string(), system_prompt: None };
    assert_eq!(sessions::create(&req).unwrap(), "test session");
    let req = CreateSessionRequest { title: "\t ".to_string(), system_prompt: None };
    match sessions::create(&req) {
        Err(AppError::BadRequest(m)) => assert_eq!(m, "title is required"),
        other => panic!("{other:?}"),
    }
    let req = CreateMemoryRequest { content: " likes tea ".to_string() };
    assert_eq!(memories::create(&req).unwrap(), "likes tea");
    match memories::create(&CreateMemoryRequest { content: "\u{3000}".to_string() }) {
        Err(AppError::BadRequest(m)) => assert_eq!(m, "content is required"),
        other => panic!("{other:?}"),
    }
}

#[test]
fn listings_stay_within_bounds() {
    let page = |limit, offset| sessions::list(&ListSessionsQuery { limit, offset });
    assert_eq!(page(20, 0), (20, 0));
    assert_eq!(page(0, -5), (1, 0));
    assert_eq!(page(i64::MAX, i64::MAX), (200, i64::MAX));
    assert_eq!(page(i64::MIN, i64::MIN), (1, 0));
    assert_eq!(default_limit(), 20);
    assert_eq!(default_max_tokens(), 1024);
}

#[test]
fn the_context_can_be_inspected() {
    let turns = vec![
        ChatTurn { role: Role::System, content: "facts:\n- a\n- b\n\nbe\n- kind".to_string() },
        ChatTurn { role: Role::User, content: "q\n- x".to_string() },
    ];
    let d = sessions::debug(5, 4096, &turns, &vec![10, 3]);
    assert_eq!((d.session_id, d.context_length), (5, 4096));
    assert_eq!(d.prompt_tokens_estimate, 13);
    assert_eq!(d.memories_injected, 3);
    assert_eq!(d.turns.len(), 2);
    assert_eq!(d.turns[1].content, "q\n- x");
    assert_eq!(sessions::count_bullets("\n- \n- \n-"), "\n- \n- \n-".matches("\n- ").count());
    assert_eq!(sessions::debug(5, 1, &vec![], &vec![]).memories_injected, 0);
}

#[test]
fn health_names_the_model() {
    let h = health::health("stub");
    assert_eq!((h.status, h.model.as_str(), h.loaded), ("ok", "stub", true));
}

#[test]
fn usage_adds_up() {
    let g = Generated { text: String::new(), prompt_tokens: 42, completion_tokens: 88 };
    let u = usage(&g);
    assert_eq!((u.prompt_tokens, u.completion_tokens, u.total_tokens), (42, 88, 130));
}

#[test]
fn content_is_checked_before_the_limit() {
    match check_message("", 0) {
        Err(AppError::BadRequest(m)) => assert_eq!(m, "content is required"),
        other => panic!("{other:?}"),
    }
    assert!(check_message("x", 1).is_ok());
}

#[test]
fn roles_go_by_their_names() {
    for role in [Role::System, Role::User, Role::Assistant, Role::Tool] {
        assert_eq!(Role::from_name(role.as_str()), Some(role));
    }
    assert_eq!(Role::from_name("User"), None);
    assert_eq!(Role::Assistant.as_str(), "assistant");
}
