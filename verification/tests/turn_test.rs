use co_worker_lite::api::turn::{begin, Action, Event, Reply, Route, Turn, TurnRequest};
use co_worker_lite::api::{agent, chat, messages};
use co_worker_lite::db::sessions::new_session;
use co_worker_lite::error::AppError;
use co_worker_lite::model::engine::{Generated, StubBackend};
use co_worker_lite::tools::ToolResult;
use co_worker_lite::types::{
    AgentContinueRequest, AgentResponse, AgentSendRequest, ChatRequest, CreateMessageRequest,
    Memory, Message, Role, Session, Timestamp,
};

const NOW: Timestamp = Timestamp { secs: 1, nanos: 0 };

fn session(id: u128, prompt: Option<&str>) -> Session {
    new_session(id, "t", "stub", prompt.map(|p| p.to_string()), NOW).0
}

/// A store and an engine to run turns on.
#[derive(Default)]
struct World {
    sessions: Vec<Session>,
    stored: Vec<Message>,
    facts: Vec<String>,
    touched: Vec<u128>,
    counted: Vec<String>,
    prompts: Vec<Vec<(Role, String)>>,
    stops: Vec<Vec<String>>,
    answer: Option<String>,
    memories: Vec<Memory>,
    facts_fail: bool,
    generate_fails: bool,
}

impl World {
    fn perform(&mut self, action: Action) -> Result<Event, AppError> {
        let stub = StubBackend::default();
        match action {
            Action::FindSession(id) => self
                .sessions
                .iter()
                .find(|s| s.id == id)
                .cloned()
                .map(Event::Session)
                .ok_or(AppError::SessionNotFound),
            Action::FindRecent => Ok(Event::Recent(self.sessions.last().cloned())),
            Action::CreateSession { title, system_prompt } => {
                let (s, _) = new_session(99, &title, "stub", system_prompt, NOW);
                self.sessions.push(s.clone());
                Ok(Event::Session(s))
            }
            Action::EnsureModel(name) => {
                assert_eq!(name, "stub");
                Ok(Event::Model(stub.context_length()))
            }
            Action::CountTokens(text) => {
                self.counted.push(text.clone());
                Ok(Event::Counted(stub.count_tokens(&text)))
            }
            Action::Insert { session_id, role, content, tokens } => {
                let id = 1000 + self.stored.len() as u128;
                let m = Message {
                    id,
                    session_id,
                    role,
                    content,
                    token_count: tokens,
                    created_at: NOW,
                    metadata: serde_json::Value::Null,
                };
                self.stored.push(m.clone());
                Ok(Event::Inserted(m))
            }
            Action::StoreFacts(facts) => {
                self.facts = facts;
                if self.facts_fail {
                    Err(AppError::Database("locked".to_string()))
                } else {
                    Ok(Event::Stored)
                }
            }
            Action::LoadContext(id) => Ok(Event::Context {
                history: self.stored.iter().filter(|m| m.session_id == id).cloned().collect(),
                memories: self.memories.clone(),
            }),
            Action::Generate { turns, opts, .. } => {
                self.prompts.push(turns.iter().map(|t| (t.role, t.content.clone())).collect());
                self.stops.push(opts.stop_sequences);
                if self.generate_fails {
                    return Err(AppError::Inference("boom".to_string()));
                }
                let mut g = stub.generate_with(&turns);
                if let Some(a) = &self.answer {
                    g.text = a.clone();
                }
                Ok(Event::Generated(g))
            }
            Action::Touch(id) => {
                self.touched.push(id);
                Ok(Event::Touched)
            }
            Action::Answer(_) => panic!("an answer is not performed"),
        }
    }

    fn run(&mut self, request: TurnRequest) -> Result<Reply, AppError> {
        let (mut turn, mut action) = begin(request)?;
        loop {
            if let Action::Answer(reply) = action {
                return Ok(reply);
            }
            let outcome = self.perform(action);
            (turn, action) = turn.next(outcome)?;
        }
    }
}

fn create(id: u128, content: &str) -> TurnRequest {
    messages::create(id, CreateMessageRequest { content: content.to_string(), max_tokens: 32 })
}

#[test]
fn a_message_is_answered_and_stored() {
    let mut w = World { sessions: vec![session(5, Some("be kind"))], ..World::default() };
    let reply = w.run(create(5, "hello there")).unwrap();
    let r = messages::respond(reply).unwrap();
    assert!(r.message.content.contains("hello there"));
    assert_eq!(r.usage.total_tokens, r.usage.prompt_tokens + r.usage.completion_tokens);
    assert!(r.usage.total_tokens > 0);
    let roles: Vec<Role> = w.stored.iter().map(|m| m.role).collect();
    assert_eq!(roles, vec![Role::User, Role::Assistant]);
    assert_eq!(w.stored[0].token_count, 2);
    assert_eq!(w.touched, vec![5]);
    assert_eq!(
        w.prompts[0],
        vec![(Role::System, "be kind".to_string()), (Role::User, "hello there".to_string())]
    );
    assert_eq!(w.counted, vec!["hello there", "be kind"]);
    assert!(w.stops[0].is_empty());
}

#[test]
fn refused_requests_say_why() {
    let blank = create(5, " \n");
    match begin(blank) {
        Err(AppError::BadRequest(m)) => assert_eq!(m, "content is required"),
        _ => panic!(),
    }
    let mut none = create(5, "x");
    none.max_tokens = 0;
    match begin(none) {
        Err(AppError::BadRequest(m)) => assert_eq!(m, "max_tokens must be > 0"),
        _ => panic!(),
    }
    let req = AgentContinueRequest {
        assistant_id: None,
        results: vec![],
        max_tokens: 0,
        workspace_hint: None,
    };
    match begin(agent::continue_(5, req)) {
        Err(AppError::BadRequest(m)) => assert_eq!(m, "max_tokens must be > 0"),
        _ => panic!(),
    }
    let mut w = World::default();
    assert!(matches!(w.run(create(5, "x")), Err(AppError::SessionNotFound)));
    assert!(w.stored.is_empty());
}

#[test]
fn facts_are_kept_and_their_failure_ignored() {
    let mut w = World {
        sessions: vec![session(5, None)],
        facts_fail: true,
        ..World::default()
    };
    w.run(create(5, "my name is Bob")).unwrap();
    assert_eq!(w.facts, vec!["The user's name is Bob."]);
    assert_eq!(w.stored.len(), 2);
}

#[test]
fn a_failed_generation_is_answered_with_its_error() {
    let mut w = World {
        sessions: vec![session(5, None)],
        generate_fails: true,
        ..World::default()
    };
    match w.run(create(5, "hi")) {
        Err(AppError::Inference(m)) => assert_eq!(m, "boom"),
        _ => panic!(),
    }
    // The user message stays.
    assert_eq!(w.stored.len(), 1);
    assert!(w.touched.is_empty());
}

#[test]
fn chat_uses_the_recent_session_or_a_new_one() {
    let req = || ChatRequest {
        content: "hi".to_string(),
        max_tokens: 8,
        system_prompt: Some("sys".to_string()),
    };
    let mut w = World { sessions: vec![session(5, None), session(6, None)], ..World::default() };
    let r = chat::respond(w.run(chat::chat(req())).unwrap()).unwrap();
    assert_eq!(r.session_id, 6);
    assert!(w.stored.iter().all(|m| m.session_id == 6));
    assert_eq!(w.touched, [6]);
    let mut w = World::default();
    let r = chat::respond(w.run(chat::chat(req())).unwrap()).unwrap();
    assert_eq!(r.session_id, 99);
    assert!(w.stored.iter().all(|m| m.session_id == 99));
    assert_eq!((w.sessions.len(), w.touched.as_slice()), (1, [99].as_slice()));
    assert_eq!(w.sessions[0].title, "chat");
    assert_eq!(w.prompts[0][0], (Role::System, "sys".to_string()));
}

#[test]
fn memories_reach_the_prompt() {
    let memory = Memory {
        id: 1,
        content: "The user's name is Eve.".to_string(),
        source: "manual".to_string(),
        created_at: NOW,
        updated_at: NOW,
    };
    let mut w = World {
        sessions: vec![session(5, Some("be kind"))],
        memories: vec![memory],
        ..World::default()
    };
    w.run(create(5, "hi")).unwrap();
    assert!(w.prompts[0][0].1.contains("- The user's name is Eve.\n\nbe kind"));
}

#[test]
fn the_agent_asks_for_tools_and_goes_on() {
    let mut w = World {
        sessions: vec![session(5, Some("be kind"))],
        answer: Some("Looking.\n<tool_call>{\"name\":\"list_dir\",\"arguments\":{\"path\":\".\"}}</tool_call>".to_string()),
        ..World::default()
    };
    let req = AgentSendRequest {
        content: "what is here?".to_string(),
        max_tokens: 64,
        workspace_hint: Some("/w".to_string()),
    };
    let reply = w.run(agent::send(5, req)).unwrap();
    let calls = match agent::respond(reply) {
        AgentResponse::ToolCalls { assistant_id, calls, prose, .. } => {
            assert_eq!(assistant_id, w.stored[1].id);
            assert_eq!(prose, "Looking.");
            calls
        }
        other => panic!("{other:?}"),
    };
    assert_eq!(calls.len(), 1);
    assert_eq!(calls[0].name, "list_dir");
    assert_eq!(
        w.stored[1].content,
        "Looking.\n<tool_call>\n{\"arguments\":{\"path\":\".\"},\"name\":\"list_dir\"}\n</tool_call>"
    );
    assert_eq!(w.stops[0], vec!["</tool_call>"]);
    let system = &w.prompts[0][0].1;
    assert!(system.starts_with("# Filesystem agent mode"));
    assert!(system.contains("`/w`"));
    assert!(system.ends_with("\nbe kind"));

    w.answer = Some("  Two files.  ".to_string());
    let req = AgentContinueRequest {
        assistant_id: None,
        results: vec![
            ToolResult { id: calls[0].id.clone(), ok: true, content: "a b".to_string() },
            ToolResult { id: "z".to_string(), ok: false, content: "denied".to_string() },
        ],
        max_tokens: 64,
        workspace_hint: None,
    };
    match agent::respond(w.run(agent::continue_(5, req)).unwrap()) {
        AgentResponse::Message { message, .. } => assert_eq!(message.content, "Two files."),
        other => panic!("{other:?}"),
    }
    let roles: Vec<Role> = w.stored.iter().map(|m| m.role).collect();
    assert_eq!(
        roles,
        vec![Role::User, Role::Assistant, Role::Tool, Role::Tool, Role::Assistant]
    );
    assert!(w.stored[2].content.starts_with("<tool_response>\n{\"id\": \"call_"));
    assert!(w.facts.is_empty());
}

#[test]
fn a_streamed_turn_ends_with_the_generation() {
    let mut w = World { sessions: vec![session(5, None)], ..World::default() };
    let req = CreateMessageRequest { content: "hi".to_string(), max_tokens: 8 };
    let (mut turn, mut action): (Turn, Action) = begin(messages::create_stream(5, req)).unwrap();
    assert_eq!(turn.request.route, Route::Stream);
    while !matches!(action, Action::Generate { .. }) {
        let outcome = w.perform(action);
        (turn, action) = turn.next(outcome).unwrap();
    }
    assert!(matches!(action, Action::Generate { streaming: true, max_tokens: 8, .. }));
    let g = Generated { text: String::new(), prompt_tokens: 0, completion_tokens: 0 };
    assert!(matches!(turn.next(Ok(Event::Generated(g))), Err(AppError::Internal(_))));
}

#[test]
fn an_event_out_of_turn_is_refused() {
    let (turn, _) = begin(create(5, "hi")).unwrap();
    match turn.next(Ok(Event::Touched)) {
        Err(AppError::Internal(m)) => assert_eq!(m, "unexpected event"),
        _ => panic!(),
    }
}
