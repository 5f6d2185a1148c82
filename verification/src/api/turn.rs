//! One turn of a conversation, from the request to the answer.
//!
//! All endpoints that talk to the model take the same path: the session is found,
//! its model is made ready, what came in is stored, the prompt is built, the model
//! answers, the answer is stored. [`Turn`] is that path. It names one action at a
//! time; the caller performs it and hands back what came of it.

use vstd::prelude::*;
use vstd::string::*;

use crate::api;
use crate::api::agent::{build_assistant_with_calls, TOOL_CALL_STOP};
use crate::api::{check_limit, check_message, usage};
use crate::context;
use crate::context::{cap, BuilderView, PromptBuilder};
use crate::error::{AppError, ErrorView};
use crate::json::Json;
use crate::memory;
use crate::memory::extract_facts;
use crate::model::engine;
use crate::model::engine::{ChatTurn, GenerateOpts, Generated, TurnView};
use crate::text;
use crate::tools;
use crate::tools::markup;
use crate::tools::parser;
use crate::tools::parser::parse;
use crate::tools::{agent_preamble, render_tool_response, ParsedToolCall, ToolResult};
use crate::types;
use crate::types::{Memory, Message, Role, Session, Usage};

verus! {

/// The endpoint that a turn came in by.
#[derive(Debug, Clone, Copy, PartialEq, Eq, Structural)]
pub enum Route {
    /// A message to a session, answered at once.
    Messages,
    /// A message to a session, answered as a stream.
    Stream,
    /// A message to the session that was touched last.
    Chat,
    /// A message to the agent.
    Agent,
    /// The tool results that the agent asked for.
    AgentContinue,
}

/// What a turn was asked for.
#[derive(Debug, Clone)]
pub struct TurnRequest {
    pub route: Route,
    /// The session, except on the chat route.
    pub session_id: u128,
    /// What the user says, except where tool results come in.
    pub content: String,
    /// The tool results that come in.
    pub results: Vec<ToolResult>,
    pub max_tokens: u32,
    /// The system prompt of a session that has to be created.
    pub system_prompt: Option<String>,
    pub workspace_hint: Option<String>,
}

/// The turn goes to the agent.
pub open spec fn is_agent(route: Route) -> bool {
    route == Route::Agent || route == Route::AgentContinue
}

/// What is wrong with a request, if anything.
pub open spec fn request_fault(request: TurnRequest) -> Option<ErrorView> {
    if request.route == Route::AgentContinue {
        api::limit_fault(request.max_tokens)
    } else {
        api::message_fault(request.content@, request.max_tokens)
    }
}

/// Where a turn takes place.
pub struct Scene {
    pub session_id: u128,
    pub prompt: Option<String>,
    pub context_length: u32,
}

/// The answer of the model on its way to being stored.
pub struct Draft {
    pub calls: Vec<ParsedToolCall>,
    pub prose: String,
    pub usage: Usage,
}

/// The answer to a turn.
#[derive(Debug)]
pub enum Reply {
    /// The model is done: this is what it said.
    Message { session_id: u128, message: Message, usage: Usage },
    /// The model wants tools to be run.
    ToolCalls { assistant_id: u128, calls: Vec<ParsedToolCall>, prose: String, usage: Usage },
}

/// What has to be done next.
#[derive(Debug)]
pub enum Action {
    /// Look a session up.
    FindSession(u128),
    /// Look up the session that was touched last.
    FindRecent,
    /// Create a session for the loaded model.
    CreateSession { title: String, system_prompt: Option<String> },
    /// Load a model unless it is loaded, and stay with it for the rest of the turn.
    EnsureModel(String),
    /// Count the tokens of a text.
    CountTokens(String),
    /// Store a message.
    Insert { session_id: u128, role: Role, content: String, tokens: i64 },
    /// Store facts about the user.
    StoreFacts(Vec<String>),
    /// Read the messages of a session and the memories.
    LoadContext(u128),
    /// Run the model; with `streaming`, the stream answers the request.
    Generate { turns: Vec<ChatTurn>, max_tokens: u32, opts: GenerateOpts, streaming: bool },
    /// Mark a session as the one touched last.
    Touch(u128),
    /// Answer the request.
    Answer(Reply),
}

/// What came of an action.
#[derive(Debug)]
pub enum Event {
    Session(Session),
    Recent(Option<Session>),
    /// The model is ready; its context length.
    Model(u32),
    Counted(usize),
    Inserted(Message),
    Stored,
    Context { history: Vec<Message>, memories: Vec<Memory> },
    Generated(Generated),
    Touched,
}

/// How far a turn has come: what it waits for.
pub enum Stage {
    Finding,
    Creating,
    Swapping { session_id: u128, prompt: Option<String> },
    Counting { scene: Scene },
    Saving { scene: Scene },
    Remembering { scene: Scene },
    CountingResult { scene: Scene, index: usize, payload: String },
    SavingResult { scene: Scene, index: usize },
    Reloading { scene: Scene },
    Loading { scene: Scene },
    Measuring { scene: Scene, builder: PromptBuilder },
    Generating { scene: Scene },
    Persisting { scene: Scene, draft: Draft },
    Touching { reply: Reply },
    Over,
}

/// The answer of the model with its texts as characters.
pub struct DraftView {
    pub calls: Seq<(Seq<char>, Json)>,
    pub prose: Seq<char>,
    pub usage: Usage,
}

impl View for Draft {
    type V = DraftView;

    open spec fn view(&self) -> DraftView {
        DraftView {
            calls: parser::call_views(self.calls@),
            prose: self.prose@,
            usage: self.usage,
        }
    }
}

/// An answer with its texts as characters.
pub enum ReplyView {
    Message { session_id: u128, message: Message, usage: Usage },
    ToolCalls {
        assistant_id: u128,
        calls: Seq<(Seq<char>, Json)>,
        prose: Seq<char>,
        usage: Usage,
    },
}

impl View for Reply {
    type V = ReplyView;

    open spec fn view(&self) -> ReplyView {
        match *self {
            Reply::Message { session_id, message, usage } => ReplyView::Message {
                session_id,
                message,
                usage,
            },
            Reply::ToolCalls { assistant_id, calls, prose, usage } => ReplyView::ToolCalls {
                assistant_id,
                calls: parser::call_views(calls@),
                prose: prose@,
                usage,
            },
        }
    }
}

/// An action with its texts as characters.
pub enum ActionView {
    FindSession(u128),
    FindRecent,
    CreateSession { title: Seq<char>, system_prompt: Option<Seq<char>> },
    EnsureModel(Seq<char>),
    CountTokens(Seq<char>),
    Insert { session_id: u128, role: Role, content: Seq<char>, tokens: int },
    StoreFacts(Seq<Seq<char>>),
    LoadContext(u128),
    Generate { turns: Seq<TurnView>, max_tokens: u32, stops: Seq<Seq<char>>, streaming: bool },
    Touch(u128),
    Answer(ReplyView),
}

impl View for Action {
    type V = ActionView;

    open spec fn view(&self) -> ActionView {
        match *self {
            Action::FindSession(id) => ActionView::FindSession(id),
            Action::FindRecent => ActionView::FindRecent,
            Action::CreateSession { title, system_prompt } => ActionView::CreateSession {
                title: title@,
                system_prompt: types::optional_text(system_prompt),
            },
            Action::EnsureModel(name) => ActionView::EnsureModel(name@),
            Action::CountTokens(t) => ActionView::CountTokens(t@),
            Action::Insert { session_id, role, content, tokens } => ActionView::Insert {
                session_id,
                role,
                content: content@,
                tokens: tokens as int,
            },
            Action::StoreFacts(facts) => ActionView::StoreFacts(text::texts(facts@)),
            Action::LoadContext(id) => ActionView::LoadContext(id),
            Action::Generate { turns, max_tokens, opts, streaming } => ActionView::Generate {
                turns: engine::turn_views(turns@),
                max_tokens,
                stops: text::texts(opts.stop_sequences@),
                streaming,
            },
            Action::Touch(id) => ActionView::Touch(id),
            Action::Answer(reply) => ActionView::Answer(reply@),
        }
    }
}

/// A stage with its texts as characters.
pub enum StageView {
    Finding,
    Creating,
    Swapping { session_id: u128, prompt: Option<String> },
    Counting { scene: Scene },
    Saving { scene: Scene },
    Remembering { scene: Scene },
    CountingResult { scene: Scene, index: int, payload: Seq<char> },
    SavingResult { scene: Scene, index: int },
    Reloading { scene: Scene },
    Loading { scene: Scene },
    Measuring { scene: Scene, builder: BuilderView },
    Generating { scene: Scene },
    Persisting { scene: Scene, draft: DraftView },
    Touching { reply: ReplyView },
    Over,
}

impl View for Stage {
    type V = StageView;

    open spec fn view(&self) -> StageView {
        match *self {
            Stage::Finding => StageView::Finding,
            Stage::Creating => StageView::Creating,
            Stage::Swapping { session_id, prompt } => StageView::Swapping { session_id, prompt },
            Stage::Counting { scene } => StageView::Counting { scene },
            Stage::Saving { scene } => StageView::Saving { scene },
            Stage::Remembering { scene } => StageView::Remembering { scene },
            Stage::CountingResult { scene, index, payload } => StageView::CountingResult {
                scene,
                index: index as int,
                payload: payload@,
            },
            Stage::SavingResult { scene, index } => StageView::SavingResult {
                scene,
                index: index as int,
            },
            Stage::Reloading { scene } => StageView::Reloading { scene },
            Stage::Loading { scene } => StageView::Loading { scene },
            Stage::Measuring { scene, builder } => StageView::Measuring {
                scene,
                builder: builder@,
            },
            Stage::Generating { scene } => StageView::Generating { scene },
            Stage::Persisting { scene, draft } => StageView::Persisting { scene, draft: draft@ },
            Stage::Touching { reply } => StageView::Touching { reply: reply@ },
            Stage::Over => StageView::Over,
        }
    }
}

// ---------------------------------------------------------------------------
// The path
// ---------------------------------------------------------------------------

/// The first action of a turn.
pub open spec fn first_action(request: TurnRequest) -> ActionView {
    if request.route == Route::Chat {
        ActionView::FindRecent
    } else {
        ActionView::FindSession(request.session_id)
    }
}

/// The session is found: its model is made ready.
pub open spec fn found(request: TurnRequest, session: Session) -> (StageView, ActionView) {
    (
        StageView::Swapping {
            session_id: if request.route == Route::Chat {
                session.id
            } else {
                request.session_id
            },
            prompt: session.system_prompt,
        },
        ActionView::EnsureModel(session.model_name@),
    )
}

/// What came in is stored: the prompt is built. The agent reads its session once
/// more before it does.
pub open spec fn stored(request: TurnRequest, scene: Scene) -> (StageView, ActionView) {
    if is_agent(request.route) {
        (StageView::Reloading { scene }, ActionView::FindSession(scene.session_id))
    } else {
        (StageView::Loading { scene }, ActionView::LoadContext(scene.session_id))
    }
}

/// A tool result as the model reads it.
pub open spec fn payload_of(r: ToolResult) -> Seq<char> {
    tools::tool_response_text(r.id@, r.ok, r.content@)
}

/// The tool results before `index` are stored: the next one is counted.
pub open spec fn next_result(request: TurnRequest, scene: Scene, index: int) -> (
    StageView,
    ActionView,
) {
    if index < request.results@.len() {
        let payload = payload_of(request.results@[index]);
        (
            StageView::CountingResult { scene, index, payload },
            ActionView::CountTokens(payload),
        )
    } else {
        stored(request, scene)
    }
}

/// The model is ready: what came in is counted and stored.
pub open spec fn ready(request: TurnRequest, scene: Scene) -> (StageView, ActionView) {
    if request.route == Route::AgentContinue {
        next_result(request, scene, 0)
    } else {
        (StageView::Counting { scene }, ActionView::CountTokens(request.content@))
    }
}

/// What stands at the top of the system block: the tools, where the agent is asked.
pub open spec fn preamble_of(request: TurnRequest) -> Seq<char> {
    if is_agent(request.route) {
        tools::tool_preamble(
            tools::filesystem_catalog(),
            types::optional_text(request.workspace_hint),
        )
    } else {
        Seq::empty()
    }
}

/// Where a generation stops.
pub open spec fn stops_of(request: TurnRequest) -> Seq<Seq<char>> {
    if is_agent(request.route) {
        seq![TOOL_CALL_STOP@]
    } else {
        Seq::empty()
    }
}

/// The prompt before anything is counted.
pub open spec fn prompt_start(
    request: TurnRequest,
    scene: Scene,
    history: Seq<Message>,
    memories: Seq<Memory>,
) -> BuilderView {
    BuilderView {
        system: context::system_block(
            preamble_of(request),
            memories,
            types::optional_text(scene.prompt),
        ),
        history,
        answers: Seq::empty(),
        context_length: scene.context_length,
        response_budget: Some(request.max_tokens),
    }
}

/// The prompt is counted as far as `b` says: the next text is counted, or the model
/// is run.
pub open spec fn measured(request: TurnRequest, scene: Scene, b: BuilderView) -> (
    StageView,
    ActionView,
) {
    if b.complete() {
        let turns = context::answered(
            b.system,
            b.history,
            b.answers,
            b.context_length,
            b.response_budget,
        );
        let streaming = request.route == Route::Stream;
        (
            if streaming {
                StageView::Over
            } else {
                StageView::Generating { scene }
            },
            ActionView::Generate {
                turns,
                max_tokens: request.max_tokens,
                stops: stops_of(request),
                streaming,
            },
        )
    } else {
        (
            StageView::Measuring { scene, builder: b },
            ActionView::CountTokens(context::queries(b.system, b.history)[b.answers.len() as int]),
        )
    }
}

/// What the model said, as it is answered: the agent reads tool calls from it.
pub open spec fn draft_of(request: TurnRequest, g: Generated) -> DraftView {
    if is_agent(request.route) {
        DraftView {
            calls: parser::parsed_calls(g.text@),
            prose: parser::parsed_prose(g.text@),
            usage: api::usage_of(g),
        }
    } else {
        DraftView { calls: Seq::empty(), prose: g.text@, usage: api::usage_of(g) }
    }
}

/// What is stored of the answer: the prose, with the tool calls written out.
pub open spec fn content_of(draft: DraftView) -> Seq<char> {
    if draft.calls.len() == 0 {
        draft.prose
    } else {
        markup::assistant_text(draft.prose, draft.calls)
    }
}

/// The model has answered: the answer is stored.
pub open spec fn generated(request: TurnRequest, scene: Scene, g: Generated) -> (
    StageView,
    ActionView,
) {
    let draft = draft_of(request, g);
    (
        StageView::Persisting { scene, draft },
        ActionView::Insert {
            session_id: scene.session_id,
            role: Role::Assistant,
            content: content_of(draft),
            tokens: g.completion_tokens as int,
        },
    )
}

/// The answer is stored: this is the reply.
pub open spec fn reply_of(scene: Scene, draft: DraftView, message: Message) -> ReplyView {
    if draft.calls.len() == 0 {
        ReplyView::Message { session_id: scene.session_id, message, usage: draft.usage }
    } else {
        ReplyView::ToolCalls {
            assistant_id: message.id,
            calls: draft.calls,
            prose: draft.prose,
            usage: draft.usage,
        }
    }
}

/// What is said of an event that does not belong to the action before it.
pub open spec fn unexpected() -> ErrorView {
    ErrorView::Internal("unexpected event"@)
}

/// The stage and the action that follow an event.
pub open spec fn after(request: TurnRequest, stage: StageView, event: Event) -> Result<
    (StageView, ActionView),
    ErrorView,
> {
    match (stage, event) {
        (StageView::Finding, Event::Session(s)) => Ok(found(request, s)),
        (StageView::Finding, Event::Recent(Some(s))) => Ok(found(request, s)),
        (StageView::Finding, Event::Recent(None)) => Ok(
            (
                StageView::Creating,
                ActionView::CreateSession {
                    title: "chat"@,
                    system_prompt: types::optional_text(request.system_prompt),
                },
            ),
        ),
        (StageView::Creating, Event::Session(s)) => Ok(found(request, s)),
        (StageView::Swapping { session_id, prompt }, Event::Model(context_length)) => Ok(
            ready(request, Scene { session_id, prompt, context_length }),
        ),
        (StageView::Counting { scene }, Event::Counted(n)) => Ok(
            (
                StageView::Saving { scene },
                ActionView::Insert {
                    session_id: scene.session_id,
                    role: Role::User,
                    content: request.content@,
                    tokens: context::capped(n),
                },
            ),
        ),
        (StageView::Saving { scene }, Event::Inserted(_)) => Ok(
            (
                StageView::Remembering { scene },
                ActionView::StoreFacts(memory::facts(request.content@, memory::unicode_lower())),
            ),
        ),
        (StageView::Remembering { scene }, Event::Stored) => Ok(stored(request, scene)),
        (StageView::CountingResult { scene, index, payload }, Event::Counted(n)) => Ok(
            (
                StageView::SavingResult { scene, index },
                ActionView::Insert {
                    session_id: scene.session_id,
                    role: Role::Tool,
                    content: payload,
                    tokens: context::capped(n),
                },
            ),
        ),
        (StageView::SavingResult { scene, index }, Event::Inserted(_)) => Ok(
            next_result(request, scene, index + 1),
        ),
        (StageView::Reloading { scene }, Event::Session(_)) => Ok(
            (StageView::Loading { scene }, ActionView::LoadContext(scene.session_id)),
        ),
        (StageView::Loading { scene }, Event::Context { history, memories }) => Ok(
            measured(request, scene, prompt_start(request, scene, history@, memories@)),
        ),
        (StageView::Measuring { scene, builder }, Event::Counted(n)) => Ok(
            measured(
                request,
                scene,
                BuilderView { answers: builder.answers.push(n), ..builder },
            ),
        ),
        (StageView::Generating { scene }, Event::Generated(g)) => Ok(
            generated(request, scene, g),
        ),
        (StageView::Persisting { scene, draft }, Event::Inserted(message)) => Ok(
            (
                StageView::Touching { reply: reply_of(scene, draft, message) },
                ActionView::Touch(scene.session_id),
            ),
        ),
        (StageView::Touching { reply }, Event::Touched) => Ok(
            (StageView::Over, ActionView::Answer(reply)),
        ),
        _ => Err(unexpected()),
    }
}

/// The stage and the action that follow the outcome of an action. A failure ends the
/// turn with its error, except that facts which could not be stored are let go.
pub open spec fn step(request: TurnRequest, stage: StageView, outcome: Result<Event, AppError>) -> Result<
    (StageView, ActionView),
    ErrorView,
> {
    match outcome {
        Ok(event) => after(request, stage, event),
        Err(e) => match stage {
            StageView::Remembering { scene } => Ok(stored(request, scene)),
            _ => Err(e@),
        },
    }
}

// ---------------------------------------------------------------------------
// The machine
// ---------------------------------------------------------------------------

/// A turn under way.
pub struct Turn {
    pub request: TurnRequest,
    pub stage: Stage,
}

impl Turn {
    /// The parts of a turn under way fit together.
    pub open spec fn wf(self) -> bool {
        match self.stage {
            Stage::CountingResult { scene, index, payload } => index < self.request.results.len(),
            Stage::SavingResult { scene, index } => index < self.request.results.len(),
            Stage::Measuring { scene, builder } => builder.wf() && !builder@.complete(),
            Stage::Persisting { scene, draft } => parser::ids_made(draft.calls@),
            Stage::Touching { reply: Reply::ToolCalls { assistant_id, calls, prose, usage } } => parser::ids_made(calls@),
            _ => true,
        }
    }
}

/// Starts a turn, or refuses the request.
pub fn begin(request: TurnRequest) -> (r: Result<(Turn, Action), AppError>)
    ensures
        match r {
            Ok((turn, action)) => {
                &&& request_fault(request) is None
                &&& turn.wf()
                &&& turn.request == request
                &&& turn.stage@ == StageView::Finding
                &&& action@ == first_action(request)
            },
            Err(e) => request_fault(request) == Some(e@),
        },
{
    let checked = match request.route {
        Route::AgentContinue => check_limit(request.max_tokens),
        _ => check_message(request.content.as_str(), request.max_tokens),
    };
    match checked {
        Err(e) => Err(e),
        Ok(_) => {
            let action = match request.route {
                Route::Chat => Action::FindRecent,
                _ => Action::FindSession(request.session_id),
            };
            Ok((Turn { request, stage: Stage::Finding }, action))
        },
    }
}

/// The session is found.
fn go_found(request: TurnRequest, session: Session) -> (r: (Turn, Action))
    ensures
        r.0.wf(),
        r.0.request == request,
        (r.0.stage@, r.1@) == found(request, session),
{
    let session_id = match request.route {
        Route::Chat => session.id,
        _ => request.session_id,
    };
    let stage = Stage::Swapping { session_id, prompt: session.system_prompt };
    (Turn { request, stage }, Action::EnsureModel(session.model_name))
}

/// Tells whether a turn goes to the agent.
fn to_agent(route: Route) -> (r: bool)
    ensures
        r == is_agent(route),
{
    match route {
        Route::Agent => true,
        Route::AgentContinue => true,
        _ => false,
    }
}

/// What came in is stored.
fn go_stored(request: TurnRequest, scene: Scene) -> (r: (Turn, Action))
    ensures
        r.0.wf(),
        r.0.request == request,
        (r.0.stage@, r.1@) == stored(request, scene),
{
    let id = scene.session_id;
    if to_agent(request.route) {
        (Turn { request, stage: Stage::Reloading { scene } }, Action::FindSession(id))
    } else {
        (Turn { request, stage: Stage::Loading { scene } }, Action::LoadContext(id))
    }
}

/// The tool results before `index` are stored.
fn go_next_result(request: TurnRequest, scene: Scene, index: usize) -> (r: (Turn, Action))
    ensures
        r.0.wf(),
        r.0.request == request,
        (r.0.stage@, r.1@) == next_result(request, scene, index as int),
{
    if index < request.results.len() {
        let payload = render_tool_response(&request.results[index]);
        let action = Action::CountTokens(payload.clone());
        (Turn { request, stage: Stage::CountingResult { scene, index, payload } }, action)
    } else {
        go_stored(request, scene)
    }
}

/// The model is ready.
fn go_ready(request: TurnRequest, scene: Scene) -> (r: (Turn, Action))
    ensures
        r.0.wf(),
        r.0.request == request,
        (r.0.stage@, r.1@) == ready(request, scene),
{
    match request.route {
        Route::AgentContinue => go_next_result(request, scene, 0),
        _ => {
            let action = Action::CountTokens(request.content.clone());
            (Turn { request, stage: Stage::Counting { scene } }, action)
        },
    }
}

/// The history and the memories are read.
fn go_loaded(
    request: TurnRequest,
    scene: Scene,
    history: Vec<Message>,
    memories: Vec<Memory>,
) -> (r: (Turn, Action))
    ensures
        r.0.wf(),
        r.0.request == request,
        (r.0.stage@, r.1@) == measured(
            request,
            scene,
            prompt_start(request, scene, history@, memories@),
        ),
{
    let preamble = if to_agent(request.route) {
        match &request.workspace_hint {
            Some(hint) => agent_preamble(Some(hint.as_str())),
            None => agent_preamble(None),
        }
    } else {
        String::new()
    };
    let builder = PromptBuilder::start(
        preamble.as_str(),
        &scene.prompt,
        history,
        memories,
        scene.context_length,
        Some(request.max_tokens),
    );
    go_measured(request, scene, builder)
}

/// The prompt is counted as far as the builder says.
fn go_measured(request: TurnRequest, scene: Scene, builder: PromptBuilder) -> (r: (Turn, Action))
    requires
        builder.wf(),
    ensures
        r.0.wf(),
        r.0.request == request,
        (r.0.stage@, r.1@) == measured(request, scene, builder@),
{
    match builder.next_text() {
        Some(t) => (
            Turn { request, stage: Stage::Measuring { scene, builder } },
            Action::CountTokens(t),
        ),
        None => {
            let turns = builder.finish();
            let mut stop_sequences: Vec<String> = Vec::new();
            if to_agent(request.route) {
                stop_sequences.push(TOOL_CALL_STOP.to_owned());
            }
            assert(text::texts(stop_sequences@) =~= stops_of(request));
            let streaming = match request.route {
                Route::Stream => true,
                _ => false,
            };
            let max_tokens = request.max_tokens;
            let stage = if streaming {
                Stage::Over
            } else {
                Stage::Generating { scene }
            };
            (
                Turn { request, stage },
                Action::Generate {
                    turns,
                    max_tokens,
                    opts: GenerateOpts { stop_sequences },
                    streaming,
                },
            )
        },
    }
}

/// The model has answered.
fn go_generated(request: TurnRequest, scene: Scene, g: Generated) -> (r: (Turn, Action))
    requires
        g.prompt_tokens + g.completion_tokens <= u32::MAX,
    ensures
        r.0.wf(),
        r.0.request == request,
        (r.0.stage@, r.1@) == generated(request, scene, g),
{
    let used = usage(&g);
    let session_id = scene.session_id;
    let tokens = g.completion_tokens as i64;
    let draft = if to_agent(request.route) {
        let outcome = parse(g.text.as_str());
        Draft { calls: outcome.tool_calls, prose: outcome.prose, usage: used }
    } else {
        let calls: Vec<ParsedToolCall> = Vec::new();
        assert(parser::call_views(calls@) =~= Seq::empty());
        Draft { calls, prose: g.text, usage: used }
    };
    assert(draft@.calls.len() == draft.calls@.len());
    let content = if draft.calls.len() == 0 {
        draft.prose.clone()
    } else {
        build_assistant_with_calls(draft.prose.as_str(), draft.calls.as_slice())
    };
    (
        Turn { request, stage: Stage::Persisting { scene, draft } },
        Action::Insert { session_id, role: Role::Assistant, content, tokens },
    )
}

/// The answer is stored.
fn go_persisted(request: TurnRequest, scene: Scene, draft: Draft, message: Message) -> (r: (
    Turn,
    Action,
))
    requires
        parser::ids_made(draft.calls@),
    ensures
        r.0.wf(),
        r.0.request == request,
        r.0.stage@ == (StageView::Touching { reply: reply_of(scene, draft@, message) }),
        r.1@ == ActionView::Touch(scene.session_id),
{
    let session_id = scene.session_id;
    assert(draft@.calls.len() == draft.calls@.len());
    let reply = if draft.calls.len() == 0 {
        Reply::Message { session_id, message, usage: draft.usage }
    } else {
        Reply::ToolCalls {
            assistant_id: message.id,
            calls: draft.calls,
            prose: draft.prose,
            usage: draft.usage,
        }
    };
    (Turn { request, stage: Stage::Touching { reply } }, Action::Touch(session_id))
}

impl Turn {
    /// Takes in what came of the last action, and says what has to be done next.
    ///
    /// A failure ends the turn with its error, except that facts which could not be
    /// stored are let go. The tokens of a generation have to be few enough to be added
    /// up.
    pub fn next(self, outcome: Result<Event, AppError>) -> (r: Result<(Turn, Action), AppError>)
        requires
            self.wf(),
            outcome matches Ok(Event::Generated(g)) ==> g.prompt_tokens + g.completion_tokens
                <= u32::MAX,
        ensures
            match r {
                Ok((turn, action)) => {
                    &&& turn.wf()
                    &&& turn.request == self.request
                    &&& step(self.request, self.stage@, outcome) == Ok::<
                        (StageView, ActionView),
                        ErrorView,
                    >((turn.stage@, action@))
                    &&& action matches Action::Answer(
                        Reply::ToolCalls { assistant_id, calls, prose, usage },
                    ) ==> parser::ids_made(calls@)
                },
                Err(e) => step(self.request, self.stage@, outcome) == Err::<
                    (StageView, ActionView),
                    ErrorView,
                >(e@),
            },
    {
        let request = self.request;
        match outcome {
            Err(e) => match self.stage {
                Stage::Remembering { scene } => Ok(go_stored(request, scene)),
                _ => Err(e),
            },
            Ok(event) => match (self.stage, event) {
                (Stage::Finding, Event::Session(s)) => Ok(go_found(request, s)),
                (Stage::Finding, Event::Recent(Some(s))) => Ok(go_found(request, s)),
                (Stage::Finding, Event::Recent(None)) => {
                    let system_prompt = request.system_prompt.clone();
                    let action = Action::CreateSession { title: "chat".to_owned(), system_prompt };
                    Ok((Turn { request, stage: Stage::Creating }, action))
                },
                (Stage::Creating, Event::Session(s)) => Ok(go_found(request, s)),
                (Stage::Swapping { session_id, prompt }, Event::Model(context_length)) => Ok(
                    go_ready(request, Scene { session_id, prompt, context_length }),
                ),
                (Stage::Counting { scene }, Event::Counted(n)) => {
                    let action = Action::Insert {
                        session_id: scene.session_id,
                        role: Role::User,
                        content: request.content.clone(),
                        tokens: cap(n),
                    };
                    Ok((Turn { request, stage: Stage::Saving { scene } }, action))
                },
                (Stage::Saving { scene }, Event::Inserted(_)) => {
                    let facts = extract_facts(request.content.as_str());
                    Ok(
                        (
                            Turn { request, stage: Stage::Remembering { scene } },
                            Action::StoreFacts(facts),
                        ),
                    )
                },
                (Stage::Remembering { scene }, Event::Stored) => Ok(go_stored(request, scene)),
                (Stage::CountingResult { scene, index, payload }, Event::Counted(n)) => {
                    let action = Action::Insert {
                        session_id: scene.session_id,
                        role: Role::Tool,
                        content: payload,
                        tokens: cap(n),
                    };
                    Ok((Turn { request, stage: Stage::SavingResult { scene, index } }, action))
                },
                (Stage::SavingResult { scene, index }, Event::Inserted(_)) => Ok(
                    go_next_result(request, scene, index + 1),
                ),
                (Stage::Reloading { scene }, Event::Session(_)) => {
                    let action = Action::LoadContext(scene.session_id);
                    Ok((Turn { request, stage: Stage::Loading { scene } }, action))
                },
                (Stage::Loading { scene }, Event::Context { history, memories }) => Ok(
                    go_loaded(request, scene, history, memories),
                ),
                (Stage::Measuring { scene, builder }, Event::Counted(n)) => {
                    let mut grown = builder;
                    grown.answer(n);
                    Ok(go_measured(request, scene, grown))
                },
                (Stage::Generating { scene }, Event::Generated(g)) => Ok(
                    go_generated(request, scene, g),
                ),
                (Stage::Persisting { scene, draft }, Event::Inserted(message)) => Ok(
                    go_persisted(request, scene, draft, message),
                ),
                (Stage::Touching { reply }, Event::Touched) => Ok(
                    (Turn { request, stage: Stage::Over }, Action::Answer(reply)),
                ),
                _ => Err(AppError::Internal("unexpected event".to_owned())),
            },
        }
    }
}

// ---------------------------------------------------------------------------
// Laws
// ---------------------------------------------------------------------------

/// A failed action ends the turn, and the request is answered with its error.
pub proof fn law_failure_is_the_answer(request: TurnRequest, stage: StageView, e: AppError)
    requires
        stage !is Remembering,
    ensures
        step(request, stage, Err(e)) == Err::<(StageView, ActionView), ErrorView>(e@),
{
}

/// Whether facts could be stored makes no difference to the turn.
pub proof fn law_facts_never_block(request: TurnRequest, scene: Scene, e: AppError)
    ensures
        step(request, StageView::Remembering { scene }, Err(e)) == step(
            request,
            StageView::Remembering { scene },
            Ok(Event::Stored),
        ),
        step(request, StageView::Remembering { scene }, Err(e)) is Ok,
{
}

/// The stage that a turn is at after the outcomes of its actions, and all the actions
/// that it named on the way.
pub open spec fn replay(request: TurnRequest, outcomes: Seq<Result<Event, AppError>>) -> Result<
    (StageView, Seq<ActionView>),
    ErrorView,
>
    decreases outcomes.len(),
{
    if outcomes.len() == 0 {
        Ok((StageView::Finding, seq![first_action(request)]))
    } else {
        match replay(request, outcomes.drop_last()) {
            Ok((stage, log)) => match step(request, stage, outcomes.last()) {
                Ok((next, action)) => Ok((next, log.push(action))),
                Err(e) => Err(e),
            },
            Err(e) => Err(e),
        }
    }
}

/// An action that stores a message of a role with a content.
pub open spec fn stores(a: ActionView, role: Role, content: Seq<char>) -> bool {
    a matches ActionView::Insert { session_id: _, role: r, content: c, tokens: _ } && r == role && c
        == content
}

/// Some action of a log stores a message of a role with a content.
pub open spec fn has_stored(log: Seq<ActionView>, role: Role, content: Seq<char>) -> bool {
    exists|i: int| 0 <= i < log.len() && stores(#[trigger] log[i], role, content)
}

/// What a turn at a stage has stored of what came in.
pub open spec fn stored_by(request: TurnRequest, stage: StageView, log: Seq<ActionView>) -> bool {
    if request.route == Route::AgentContinue {
        match stage {
            StageView::CountingResult { scene, index, payload } => {
                &&& 0 <= index < request.results@.len()
                &&& payload == payload_of(request.results@[index])
                &&& results_stored(request, log, index)
            },
            StageView::SavingResult { scene, index } => {
                &&& 0 <= index < request.results@.len()
                &&& results_stored(request, log, index + 1)
            },
            StageView::Finding | StageView::Creating => true,
            StageView::Swapping { session_id, prompt } => true,
            StageView::Counting { scene } => false,
            StageView::Saving { scene } => false,
            StageView::Remembering { scene } => false,
            _ => results_stored(request, log, request.results@.len() as int),
        }
    } else {
        match stage {
            StageView::Finding | StageView::Creating => true,
            StageView::Swapping { session_id, prompt } => true,
            StageView::Counting { scene } => true,
            StageView::CountingResult { scene, index, payload } => false,
            StageView::SavingResult { scene, index } => false,
            _ => has_stored(log, Role::User, request.content@),
        }
    }
}

/// The first `n` tool results are stored, as the model reads them.
pub open spec fn results_stored(request: TurnRequest, log: Seq<ActionView>, n: int) -> bool {
    forall|k: int|
        0 <= k < n ==> has_stored(
            log,
            Role::Tool,
            payload_of(#[trigger] request.results@[k]),
        )
}

proof fn lemma_log_grows(log: Seq<ActionView>, a: ActionView, role: Role, content: Seq<char>)
    ensures
        has_stored(log, role, content) ==> has_stored(log.push(a), role, content),
        stores(a, role, content) ==> has_stored(log.push(a), role, content),
{
    if has_stored(log, role, content) {
        let i = choose|i: int| 0 <= i < log.len() && stores(#[trigger] log[i], role, content);
        assert(log.push(a)[i] == log[i]);
    }
    if stores(a, role, content) {
        assert(log.push(a)[log.len() as int] == a);
    }
}

proof fn lemma_stored(request: TurnRequest, outcomes: Seq<Result<Event, AppError>>)
    ensures
        replay(request, outcomes) matches Ok((stage, log)) ==> stored_by(request, stage, log)
            && log.len() > 0,
    decreases outcomes.len(),
{
    if outcomes.len() > 0 {
        lemma_stored(request, outcomes.drop_last());
        if let Ok((stage, log)) = replay(request, outcomes.drop_last()) {
            if let Ok((next, action)) = step(request, stage, outcomes.last()) {
                let grown = log.push(action);
                lemma_log_grows(log, action, Role::User, request.content@);
                assert forall|k: int|
                    0 <= k < request.results@.len() && has_stored(
                        log,
                        Role::Tool,
                        payload_of(#[trigger] request.results@[k]),
                    ) implies has_stored(
                    grown,
                    Role::Tool,
                    payload_of(request.results@[k]),
                ) by {
                    lemma_log_grows(
                        log,
                        action,
                        Role::Tool,
                        payload_of(request.results@[k]),
                    );
                }
                if let StageView::CountingResult { scene, index, payload } = stage {
                    lemma_log_grows(log, action, Role::Tool, payload);
                }
            }
        }
    }
}

/// What the user said is stored before the model is run.
pub proof fn law_user_message_stored_first(
    request: TurnRequest,
    outcomes: Seq<Result<Event, AppError>>,
)
    requires
        request.route != Route::AgentContinue,
    ensures
        replay(request, outcomes) matches Ok((stage, log)) ==> (log.last() is Generate
            ==> has_stored(log, Role::User, request.content@)),
{
    lemma_stored(request, outcomes);
    lemma_generate_stage(request, outcomes);
}

/// Every tool result is stored, as the model reads it, before the model is run.
pub proof fn law_tool_results_stored_first(
    request: TurnRequest,
    outcomes: Seq<Result<Event, AppError>>,
)
    requires
        request.route == Route::AgentContinue,
    ensures
        replay(request, outcomes) matches Ok((stage, log)) ==> (log.last() is Generate
            ==> results_stored(request, log, request.results@.len() as int)),
{
    lemma_stored(request, outcomes);
    lemma_generate_stage(request, outcomes);
}

/// The model runs only at the end of the path that leads to it, and an answer is
/// given only at its own.
proof fn lemma_generate_stage(request: TurnRequest, outcomes: Seq<Result<Event, AppError>>)
    ensures
        replay(request, outcomes) matches Ok((stage, log)) ==> {
            &&& log.last() is Generate ==> stage is Generating || stage is Over
            &&& log.last() is Answer ==> stage is Over
            &&& log.len() > 0
        },
    decreases outcomes.len(),
{
    if outcomes.len() > 0 {
        lemma_generate_stage(request, outcomes.drop_last());
    }
}

/// A reply goes back to what the model generated: what was generated was stored as the
/// turn of the assistant, and the reply shows it with the stored message and the session
/// of the turn.
pub open spec fn replies_to(
    request: TurnRequest,
    outcomes: Seq<Result<Event, AppError>>,
    log: Seq<ActionView>,
    reply: ReplyView,
) -> bool {
    exists|k: int, m: int, scene: Scene|
        0 <= k < m < outcomes.len() && turn_session(request, outcomes) == Some(scene.session_id)
            && #[trigger] replies_at(request, outcomes[k], outcomes[m], log, scene, reply)
}

/// A reply goes back to a generation and to the message that it was stored as.
pub open spec fn replies_at(
    request: TurnRequest,
    generation: Result<Event, AppError>,
    insertion: Result<Event, AppError>,
    log: Seq<ActionView>,
    scene: Scene,
    reply: ReplyView,
) -> bool {
    &&& generation matches Ok(Event::Generated(g))
    &&& insertion matches Ok(Event::Inserted(message))
    &&& has_stored(log, Role::Assistant, content_of(draft_of(request, g)))
    &&& reply == reply_of(scene, draft_of(request, g), message)
}

/// What a turn at a stage knows of the answer of the model.
pub open spec fn answer_known(
    request: TurnRequest,
    outcomes: Seq<Result<Event, AppError>>,
    stage: StageView,
    log: Seq<ActionView>,
) -> bool {
    match stage {
        StageView::Persisting { scene, draft } => draft_known(request, outcomes, log, draft),
        StageView::Touching { reply } => replies_to(request, outcomes, log, reply),
        _ => true,
    }
}

/// A draft goes back to what the model generated.
pub open spec fn draft_known(
    request: TurnRequest,
    outcomes: Seq<Result<Event, AppError>>,
    log: Seq<ActionView>,
    draft: DraftView,
) -> bool {
    exists|k: int|
        0 <= k < outcomes.len() && #[trigger] drafted(request, outcomes[k], log, draft)
}

/// A draft is made of a generation and was stored.
pub open spec fn drafted(
    request: TurnRequest,
    generation: Result<Event, AppError>,
    log: Seq<ActionView>,
    draft: DraftView,
) -> bool {
    &&& generation matches Ok(Event::Generated(g))
    &&& draft == draft_of(request, g)
    &&& has_stored(log, Role::Assistant, content_of(draft))
}

/// The answer to a turn is what the model generated, and it was stored before.
pub proof fn law_answer_is_stored(request: TurnRequest, outcomes: Seq<Result<Event, AppError>>)
    ensures
        replay(request, outcomes) matches Ok((stage, log)) ==> (log.last() matches ActionView::Answer(
            reply,
        ) ==> replies_to(request, outcomes, log, reply)),
{
    lemma_answer(request, outcomes);
}

/// An action that touches or answers for a session does so with the session `id`.
pub open spec fn within(a: ActionView, id: u128) -> bool {
    match a {
        ActionView::FindSession(s) => s == id,
        ActionView::Insert { session_id, role, content, tokens } => session_id == id,
        ActionView::LoadContext(s) => s == id,
        ActionView::Touch(s) => s == id,
        ActionView::Answer(reply) => answers_for(reply, id),
        _ => true,
    }
}

/// A reply that names a session names the session `id`.
pub open spec fn answers_for(reply: ReplyView, id: u128) -> bool {
    reply matches ReplyView::Message { session_id, message, usage } ==> session_id == id
}

/// An action that comes before there is a session: it looks for one, or creates one.
pub open spec fn settles(a: ActionView) -> bool {
    a is FindRecent || a is CreateSession
}

/// The session that a turn takes place in: on the chat route the one that was found, or,
/// where none was, the one that was created; else the one that was asked for.
pub open spec fn turn_session(request: TurnRequest, outcomes: Seq<Result<Event, AppError>>) -> Option<
    u128,
> {
    if request.route != Route::Chat {
        Some(request.session_id)
    } else if outcomes.len() == 0 {
        None
    } else {
        match outcomes[0] {
            Ok(Event::Recent(Some(s))) => Some(s.id),
            Ok(Event::Session(s)) => Some(s.id),
            Ok(Event::Recent(None)) => if outcomes.len() == 1 {
                None
            } else {
                match outcomes[1] {
                    Ok(Event::Session(s)) => Some(s.id),
                    _ => None,
                }
            },
            _ => None,
        }
    }
}

/// The session that a stage has settled on.
pub open spec fn session_at(stage: StageView) -> Option<u128> {
    match stage {
        StageView::Swapping { session_id, prompt } => Some(session_id),
        StageView::Counting { scene } => Some(scene.session_id),
        StageView::Saving { scene } => Some(scene.session_id),
        StageView::Remembering { scene } => Some(scene.session_id),
        StageView::CountingResult { scene, index, payload } => Some(scene.session_id),
        StageView::SavingResult { scene, index } => Some(scene.session_id),
        StageView::Reloading { scene } => Some(scene.session_id),
        StageView::Loading { scene } => Some(scene.session_id),
        StageView::Measuring { scene, builder } => Some(scene.session_id),
        StageView::Generating { scene } => Some(scene.session_id),
        StageView::Persisting { scene, draft } => Some(scene.session_id),
        _ => None,
    }
}

/// A turn reads and writes one session, and answers for no other: the session that was
/// asked for, or, on the chat route, the one that was found or created. Until there is one,
/// a turn does nothing but look for it or create it.
pub proof fn law_turn_stays_in_its_session(
    request: TurnRequest,
    outcomes: Seq<Result<Event, AppError>>,
)
    ensures
        replay(request, outcomes) matches Ok((stage, log)) ==> match turn_session(
            request,
            outcomes,
        ) {
            Some(id) => forall|i: int| 0 <= i < log.len() ==> within(#[trigger] log[i], id),
            None => forall|i: int| 0 <= i < log.len() ==> settles(#[trigger] log[i]),
        },
{
    lemma_within(request, outcomes);
}

/// A turn creates one session at most, right after it was told that there is none.
pub proof fn law_one_session_is_created(
    request: TurnRequest,
    outcomes: Seq<Result<Event, AppError>>,
    i: int,
)
    ensures
        replay(request, outcomes) matches Ok((stage, log)) ==> (0 <= i < log.len()
            && log[i] is CreateSession ==> i == 1 && outcomes[0] == Ok::<Event, AppError>(
            Event::Recent(None),
        )),
{
    lemma_within(request, outcomes);
}

/// The session of a turn stays the same once there is one.
proof fn lemma_session_kept(
    request: TurnRequest,
    outcomes: Seq<Result<Event, AppError>>,
)
    requires
        outcomes.len() > 0,
    ensures
        turn_session(request, outcomes.drop_last()) is Some ==> turn_session(request, outcomes)
            == turn_session(request, outcomes.drop_last()),
{
    let front = outcomes.drop_last();
    if front.len() > 0 {
        assert(front[0] == outcomes[0]);
    }
    if front.len() > 1 {
        assert(front[1] == outcomes[1]);
    }
}

/// What a turn at a stage has settled on.
pub open spec fn settled_by(
    request: TurnRequest,
    outcomes: Seq<Result<Event, AppError>>,
    stage: StageView,
) -> bool {
    match stage {
        StageView::Finding => outcomes.len() == 0,
        StageView::Creating => outcomes.len() == 1 && outcomes[0] == Ok::<Event, AppError>(
            Event::Recent(None),
        ),
        _ => turn_session(request, outcomes) matches Some(id) && settled_on(stage, id),
    }
}

/// A stage has settled on the session `id`.
pub open spec fn settled_on(stage: StageView, id: u128) -> bool {
    match stage {
        StageView::Touching { reply } => answers_for(reply, id),
        StageView::Over => true,
        _ => session_at(stage) == Some(id),
    }
}

/// A turn that has settled on a session stays there.
proof fn lemma_settled_step(
    request: TurnRequest,
    stage: StageView,
    outcome: Result<Event, AppError>,
    id: u128,
)
    requires
        settled_on(stage, id),
    ensures
        step(request, stage, outcome) matches Ok((next, action)) ==> settled_on(next, id) && within(
            action,
            id,
        ) && action !is CreateSession,
{
}

proof fn lemma_within(request: TurnRequest, outcomes: Seq<Result<Event, AppError>>)
    ensures
        replay(request, outcomes) matches Ok((stage, log)) ==> {
            &&& log.len() == outcomes.len() + 1
            &&& settled_by(request, outcomes, stage)
            &&& forall|i: int|
                0 <= i < log.len() && (#[trigger] log[i]) is CreateSession ==> i == 1 && outcomes[0]
                    == Ok::<Event, AppError>(Event::Recent(None))
            &&& turn_session(request, outcomes) matches Some(id) ==> forall|i: int|
                0 <= i < log.len() ==> within(#[trigger] log[i], id)
            &&& turn_session(request, outcomes) is None ==> forall|i: int|
                0 <= i < log.len() ==> settles(#[trigger] log[i])
        },
    decreases outcomes.len(),
{
    if outcomes.len() > 0 {
        let front = outcomes.drop_last();
        lemma_within(request, front);
        lemma_session_kept(request, outcomes);
        if let Ok((stage, log)) = replay(request, front) {
            assert(outcomes[outcomes.len() - 1] == outcomes.last());
            if front.len() > 0 {
                assert(front[0] == outcomes[0]);
            }
            match stage {
                StageView::Finding => {},
                StageView::Creating => {},
                _ => {
                    lemma_settled_step(
                        request,
                        stage,
                        outcomes.last(),
                        turn_session(request, front)->0,
                    );
                },
            }
        }
    }
}

/// Only the agent answers with tool calls.
pub proof fn law_only_the_agent_calls_tools(
    request: TurnRequest,
    outcomes: Seq<Result<Event, AppError>>,
)
    requires
        !is_agent(request.route),
    ensures
        replay(request, outcomes) matches Ok((stage, log)) ==> (
        log.last() matches ActionView::Answer(reply) ==> reply is Message),
{
    lemma_plain_reply(request, outcomes);
}

proof fn lemma_plain_reply(request: TurnRequest, outcomes: Seq<Result<Event, AppError>>)
    requires
        !is_agent(request.route),
    ensures
        replay(request, outcomes) matches Ok((stage, log)) ==> {
            &&& log.len() > 0
            &&& stage matches StageView::Persisting { scene, draft } ==> draft.calls.len() == 0
            &&& stage matches StageView::Touching { reply } ==> reply is Message
            &&& log.last() matches ActionView::Answer(reply) ==> reply is Message
        },
    decreases outcomes.len(),
{
    if outcomes.len() > 0 {
        lemma_plain_reply(request, outcomes.drop_last());
    }
}

proof fn lemma_answer(request: TurnRequest, outcomes: Seq<Result<Event, AppError>>)
    ensures
        replay(request, outcomes) matches Ok((stage, log)) ==> {
            &&& log.len() > 0
            &&& answer_known(request, outcomes, stage, log)
            &&& log.last() matches ActionView::Answer(reply) ==> replies_to(
                request,
                outcomes,
                log,
                reply,
            )
        },
    decreases outcomes.len(),
{
    if outcomes.len() > 0 {
        let front = outcomes.drop_last();
        lemma_answer(request, front);
        lemma_within(request, front);
        lemma_session_kept(request, outcomes);
        if let Ok((stage, log)) = replay(request, front) {
            if let Ok((next, action)) = step(request, stage, outcomes.last()) {
                let grown = log.push(action);
                let last = outcomes.len() - 1;
                match stage {
                    StageView::Generating { scene } => {
                        if let Ok(Event::Generated(g)) = outcomes.last() {
                            let draft = draft_of(request, g);
                            lemma_log_grows(log, action, Role::Assistant, content_of(draft));
                            assert(drafted(request, outcomes[last], grown, draft));
                            assert(next == StageView::Persisting { scene, draft });
                            assert(draft_known(request, outcomes, grown, draft));
                        }
                    },
                    StageView::Persisting { scene, draft } => {
                        let k = choose|k: int|
                            0 <= k < front.len() && #[trigger] drafted(request, front[k], log, draft);
                        assert(outcomes[k] == front[k]);
                        lemma_log_grows(log, action, Role::Assistant, content_of(draft));
                        if let Ok(Event::Inserted(message)) = outcomes.last() {
                            assert(replies_at(
                                request,
                                outcomes[k],
                                outcomes[last],
                                grown,
                                scene,
                                reply_of(scene, draft, message),
                            ));
                        }
                    },
                    StageView::Touching { reply } => {
                        let (k, m, scene) = choose|k: int, m: int, scene: Scene|
                            0 <= k < m < front.len() && turn_session(request, front) == Some(
                                scene.session_id,
                            ) && #[trigger] replies_at(
                                request,
                                front[k],
                                front[m],
                                log,
                                scene,
                                reply,
                            );
                        assert(outcomes[k] == front[k] && outcomes[m] == front[m]);
                        if let Ok(Event::Generated(g)) = front[k] {
                            lemma_log_grows(
                                log,
                                action,
                                Role::Assistant,
                                content_of(draft_of(request, g)),
                            );
                        }
                        assert(replies_at(request, outcomes[k], outcomes[m], grown, scene, reply));
                    },
                    _ => {
                        assert(next !is Persisting && next !is Touching && action !is Answer);
                    },
                }
                assert(answer_known(request, outcomes, next, grown));
            }
        }
    }
}

// ---------------------------------------------------------------------------
// The course of a turn
// ---------------------------------------------------------------------------

/// The session that the lookup came to, or the creation where there was none.
pub open spec fn session_found(outcomes: Seq<Result<Event, AppError>>) -> Option<Session> {
    if outcomes.len() == 0 {
        None
    } else {
        match outcomes[0] {
            Ok(Event::Session(s)) => Some(s),
            Ok(Event::Recent(Some(s))) => Some(s),
            Ok(Event::Recent(None)) => if outcomes.len() == 1 {
                None
            } else {
                match outcomes[1] {
                    Ok(Event::Session(s)) => Some(s),
                    _ => None,
                }
            },
            _ => None,
        }
    }
}

/// The outcome that says that the model is ready: the one behind the session.
pub open spec fn model_at(outcomes: Seq<Result<Event, AppError>>) -> int {
    if outcomes[0] == Ok::<Event, AppError>(Event::Recent(None)) {
        2
    } else {
        1
    }
}

/// What stands at the top of the system block: the tools on the two routes of the agent, and
/// nothing on the others.
pub open spec fn top_of(request: TurnRequest) -> Seq<char> {
    match request.route {
        Route::Agent => tools::tool_preamble(
            tools::filesystem_catalog(),
            types::optional_text(request.workspace_hint),
        ),
        Route::AgentContinue => tools::tool_preamble(
            tools::filesystem_catalog(),
            types::optional_text(request.workspace_hint),
        ),
        Route::Messages => Seq::empty(),
        Route::Stream => Seq::empty(),
        Route::Chat => Seq::empty(),
    }
}

/// The outcomes from `from` on are the answers of the engine.
pub open spec fn counted_from(
    outcomes: Seq<Result<Event, AppError>>,
    from: int,
    answers: Seq<usize>,
) -> bool {
    &&& outcomes.len() == from + answers.len()
    &&& forall|k: int|
        0 <= k < answers.len() ==> outcomes[from + k] == Ok::<Event, AppError>(
            Event::Counted(#[trigger] answers[k]),
        )
}

/// The turns that the model is run on are the prompt of what was read: of the system block
/// with the memories and the prompt of the session that was found, and of the history, in the
/// window of the model that was made ready, beside the reply that was asked for.
pub open spec fn runs_on(
    request: TurnRequest,
    outcomes: Seq<Result<Event, AppError>>,
    turns: Seq<TurnView>,
    c: int,
    answers: Seq<usize>,
) -> bool {
    &&& session_found(outcomes) matches Some(session)
    &&& model_at(outcomes) < c < outcomes.len()
    &&& outcomes[model_at(outcomes)] matches Ok(Event::Model(context_length))
    &&& outcomes[c] matches Ok(Event::Context { history, memories })
    &&& counted_from(outcomes, c + 1, answers)
    &&& {
        let system = context::system_block(
            top_of(request),
            memories@,
            types::optional_text(session.system_prompt),
        );
        &&& answers.len() == context::queries(system, history@).len()
        &&& turns == context::answered(
            system,
            history@,
            answers,
            context_length,
            Some(request.max_tokens),
        )
    }
}

/// What the model is run on, on every route: the prompt of the session that was found or
/// created, the memories and the history that were read, whatever else the request holds. As
/// many tokens are asked for as the request asks for; only the agent is stopped behind a tool
/// call; and only a stream is streamed.
pub proof fn law_model_runs_on_what_was_read(
    request: TurnRequest,
    outcomes: Seq<Result<Event, AppError>>,
)
    ensures
        replay(request, outcomes) matches Ok((stage, log)) ==> (
        log.last() matches ActionView::Generate { turns, max_tokens, stops, streaming } ==> {
            &&& exists|c: int, answers: Seq<usize>| #[trigger]
                runs_on(request, outcomes, turns, c, answers)
            &&& max_tokens == request.max_tokens
            &&& stops == (if request.route == Route::Agent || request.route
                == Route::AgentContinue {
                seq!["</tool_call>"@]
            } else {
                Seq::empty()
            })
            &&& streaming == (request.route == Route::Stream)
        }),
{
    lemma_known(request, outcomes);
}

/// The prompt of the session reaches the model on every route: it closes the system turn that
/// the turns start with, below the line of every memory.
pub proof fn law_session_prompt_reaches_the_model(
    request: TurnRequest,
    outcomes: Seq<Result<Event, AppError>>,
    prompt: String,
    c: int,
    history: Vec<Message>,
    memories: Vec<Memory>,
    k: int,
)
    requires
        session_found(outcomes) matches Some(session) && session.system_prompt == Some(prompt),
        prompt@.len() > 0,
        0 <= c < outcomes.len(),
        outcomes[c] == Ok::<Event, AppError>(Event::Context { history, memories }),
    ensures
        replay(request, outcomes) matches Ok((stage, log)) ==> (
        log.last() matches ActionView::Generate { turns, max_tokens, stops, streaming } ==> {
            &&& turns.len() > 0
            &&& turns[0].role == Role::System
            &&& prompt@.is_suffix_of(turns[0].content)
            &&& 0 <= k < memories@.len() ==> text::has_text(
                turns[0].content,
                "- "@ + memories@[k].content@ + "\n"@,
            )
        }),
{
    lemma_known(request, outcomes);
    if let Ok((stage, log)) = replay(request, outcomes) {
        if let ActionView::Generate { turns, max_tokens, stops, streaming } = log.last() {
            let (d, answers) = choose|d: int, answers: Seq<usize>| #[trigger]
                runs_on(request, outcomes, turns, d, answers);
            lemma_one_context(request, outcomes, turns, c, d, answers);
            context::law_session_prompt_last(top_of(request), memories@, prompt@);
            let system = context::system_block(top_of(request), memories@, Some(prompt@));
            assert(system.len() > 0);
            let n = outcomes[model_at(outcomes)]->Ok_0->Model_0;
            context::law_prompt_quotes_history(
                system,
                history@,
                answers,
                n,
                Some(request.max_tokens),
            );
            if 0 <= k < memories@.len() {
                context::law_every_memory_injected(top_of(request), memories@, Some(prompt@), k);
            }
        }
    }
}

/// What was read is read once.
proof fn lemma_one_context(
    request: TurnRequest,
    outcomes: Seq<Result<Event, AppError>>,
    turns: Seq<TurnView>,
    c: int,
    d: int,
    answers: Seq<usize>,
)
    requires
        replay(request, outcomes) is Ok,
        runs_on(request, outcomes, turns, d, answers),
        0 <= c < outcomes.len(),
        outcomes[c] matches Ok(Event::Context { history, memories }),
    ensures
        c == d,
{
    if c > d {
        let k = c - d - 1;
        assert(outcomes[d + 1 + k] == Ok::<Event, AppError>(Event::Counted(answers[k])));
    }
    if c < d {
        lemma_before_context(request, outcomes, c, d);
    }
}

/// Behind the history nothing is read a second time.
proof fn lemma_before_context(
    request: TurnRequest,
    outcomes: Seq<Result<Event, AppError>>,
    c: int,
    d: int,
)
    requires
        replay(request, outcomes) is Ok,
        0 <= c < d < outcomes.len(),
        outcomes[c] matches Ok(Event::Context { history, memories }),
    ensures
        !(outcomes[d] matches Ok(Event::Context { history, memories })),
{
    lemma_replay_prefix(request, outcomes, d);
    lemma_replay_prefix(request, outcomes, d + 1);
    let upto = outcomes.take(d);
    assert(outcomes.take(d + 1).drop_last() =~= upto);
    assert(outcomes.take(d + 1).last() == outcomes[d]);
    assert(upto[c] == outcomes[c]);
    lemma_past_context(request, upto, c);
}

proof fn lemma_past_context(request: TurnRequest, outcomes: Seq<Result<Event, AppError>>, c: int)
    requires
        0 <= c < outcomes.len(),
        outcomes[c] matches Ok(Event::Context { history, memories }),
    ensures
        replay(request, outcomes) matches Ok((stage, log)) ==> stage is Measuring || stage is Generating
            || stage is Persisting || stage is Touching || stage is Over,
    decreases outcomes.len(),
{
    let front = outcomes.drop_last();
    if c < front.len() {
        assert(front[c] == outcomes[c]);
        lemma_past_context(request, front, c);
    } else {
        assert(outcomes.last() == outcomes[c]);
    }
}

/// What leads up to an action was replayed before.
proof fn lemma_replay_prefix(request: TurnRequest, outcomes: Seq<Result<Event, AppError>>, n: int)
    requires
        replay(request, outcomes) is Ok,
        0 <= n <= outcomes.len(),
    ensures
        replay(request, outcomes.take(n)) is Ok,
    decreases outcomes.len(),
{
    if n < outcomes.len() {
        lemma_replay_prefix(request, outcomes.drop_last(), n);
        assert(outcomes.drop_last().take(n) =~= outcomes.take(n));
    } else {
        assert(outcomes.take(n) =~= outcomes);
    }
}

/// A scene is made of the session that was found and of the model that was made ready.
spec fn scene_known(
    request: TurnRequest,
    outcomes: Seq<Result<Event, AppError>>,
    scene: Scene,
) -> bool {
    &&& session_found(outcomes) matches Some(s)
    &&& scene.prompt == s.system_prompt
    &&& scene.session_id == (if request.route == Route::Chat {
        s.id
    } else {
        request.session_id
    })
    &&& model_at(outcomes) < outcomes.len()
    &&& outcomes[model_at(outcomes)] == Ok::<Event, AppError>(Event::Model(scene.context_length))
}

/// A prompt in the making is that of what was read at `c`.
spec fn builder_known(
    request: TurnRequest,
    outcomes: Seq<Result<Event, AppError>>,
    scene: Scene,
    b: BuilderView,
    c: int,
) -> bool {
    &&& model_at(outcomes) < c < outcomes.len()
    &&& outcomes[c] matches Ok(Event::Context { history, memories })
    &&& b.history == history@
    &&& b.system == context::system_block(
        top_of(request),
        memories@,
        types::optional_text(scene.prompt),
    )
    &&& b.context_length == scene.context_length
    &&& b.response_budget == Some(request.max_tokens)
    &&& counted_from(outcomes, c + 1, b.answers)
}

/// What a stage knows of the outcomes before it.
spec fn stage_known(
    request: TurnRequest,
    outcomes: Seq<Result<Event, AppError>>,
    stage: StageView,
) -> bool {
    match stage {
        StageView::Finding => outcomes.len() == 0,
        StageView::Creating => outcomes.len() == 1 && outcomes[0] == Ok::<Event, AppError>(
            Event::Recent(None),
        ),
        StageView::Swapping { session_id, prompt } => {
            &&& session_found(outcomes) matches Some(s)
            &&& prompt == s.system_prompt
            &&& session_id == (if request.route == Route::Chat {
                s.id
            } else {
                request.session_id
            })
            &&& outcomes.len() == model_at(outcomes)
        },
        StageView::Counting { scene } => scene_known(request, outcomes, scene),
        StageView::Saving { scene } => scene_known(request, outcomes, scene),
        StageView::Remembering { scene } => scene_known(request, outcomes, scene),
        StageView::CountingResult { scene, index, payload } => scene_known(
            request,
            outcomes,
            scene,
        ),
        StageView::SavingResult { scene, index } => scene_known(request, outcomes, scene),
        StageView::Reloading { scene } => scene_known(request, outcomes, scene),
        StageView::Loading { scene } => scene_known(request, outcomes, scene),
        StageView::Measuring { scene, builder } => scene_known(request, outcomes, scene)
            && builder_read(request, outcomes, scene, builder),
        StageView::Generating { scene } => scene_known(request, outcomes, scene),
        StageView::Persisting { scene, draft } => {
            &&& scene_known(request, outcomes, scene)
            &&& outcomes.last() matches Ok(Event::Generated(g))
            &&& draft == draft_of(request, g)
        },
        StageView::Touching { reply } => {
            &&& outcomes.len() >= 2
            &&& outcomes[outcomes.len() - 2] matches Ok(Event::Generated(g))
            &&& outcomes[outcomes.len() - 1] matches Ok(Event::Inserted(m))
            &&& exists|scene: Scene| #[trigger]
                scene_known(request, outcomes, scene) && reply == reply_of(
                    scene,
                    draft_of(request, g),
                    m,
                )
        },
        StageView::Over => true,
    }
}

/// A prompt in the making is that of what was read.
spec fn builder_read(
    request: TurnRequest,
    outcomes: Seq<Result<Event, AppError>>,
    scene: Scene,
    b: BuilderView,
) -> bool {
    exists|c: int| #[trigger] builder_known(request, outcomes, scene, b, c)
}

/// A scene stays known.
proof fn lemma_scene_kept(
    request: TurnRequest,
    outcomes: Seq<Result<Event, AppError>>,
    scene: Scene,
)
    requires
        outcomes.len() > 0,
        scene_known(request, outcomes.drop_last(), scene),
    ensures
        scene_known(request, outcomes, scene),
        model_at(outcomes) == model_at(outcomes.drop_last()),
{
    let front = outcomes.drop_last();
    assert(front[0] == outcomes[0]);
    assert(front[model_at(front)] == outcomes[model_at(front)]);
    if front.len() > 1 {
        assert(front[1] == outcomes[1]);
    }
}

/// What is known of a prompt in the making when one more text is counted, or when the history
/// has just been read.
proof fn lemma_measured(
    request: TurnRequest,
    outcomes: Seq<Result<Event, AppError>>,
    scene: Scene,
    b: BuilderView,
    c: int,
)
    requires
        scene_known(request, outcomes, scene),
        builder_known(request, outcomes, scene, b, c),
    ensures
        stage_known(request, outcomes, measured(request, scene, b).0),
        measured(request, scene, b).1 matches ActionView::Generate {
            turns,
            max_tokens,
            stops,
            streaming,
        } ==> runs_on(request, outcomes, turns, c, b.answers) && max_tokens == request.max_tokens
            && stops == stops_of(request) && streaming == (request.route == Route::Stream),
{
    assert(builder_read(request, outcomes, scene, b));
}

proof fn lemma_known(request: TurnRequest, outcomes: Seq<Result<Event, AppError>>)
    ensures
        replay(request, outcomes) matches Ok((stage, log)) ==> {
            &&& log.len() == outcomes.len() + 1
            &&& stage_known(request, outcomes, stage)
            &&& log.last() matches ActionView::Generate { turns, max_tokens, stops, streaming }
                ==> {
                &&& exists|c: int, answers: Seq<usize>| #[trigger]
                    runs_on(request, outcomes, turns, c, answers)
                &&& max_tokens == request.max_tokens
                &&& stops == stops_of(request)
                &&& streaming == (request.route == Route::Stream)
            }
        },
    decreases outcomes.len(),
{
    if outcomes.len() > 0 {
        let front = outcomes.drop_last();
        lemma_known(request, front);
        if let Ok((stage, log)) = replay(request, front) {
            if let Ok((next, action)) = step(request, stage, outcomes.last()) {
                assert(outcomes[outcomes.len() - 1] == outcomes.last());
                lemma_known_step(request, outcomes, stage);
            }
        }
    }
}

proof fn lemma_known_step(
    request: TurnRequest,
    outcomes: Seq<Result<Event, AppError>>,
    stage: StageView,
)
    requires
        outcomes.len() > 0,
        stage_known(request, outcomes.drop_last(), stage),
    ensures
        step(request, stage, outcomes.last()) matches Ok((next, action)) ==> {
            &&& stage_known(request, outcomes, next)
            &&& action matches ActionView::Generate { turns, max_tokens, stops, streaming } ==> {
                &&& exists|c: int, answers: Seq<usize>| #[trigger]
                    runs_on(request, outcomes, turns, c, answers)
                &&& max_tokens == request.max_tokens
                &&& stops == stops_of(request)
                &&& streaming == (request.route == Route::Stream)
            }
        },
{
    let front = outcomes.drop_last();
    let n = outcomes.len() - 1;
    assert(outcomes[n] == outcomes.last());
    if front.len() > 0 {
        assert(front[0] == outcomes[0]);
    }
    if front.len() > 1 {
        assert(front[1] == outcomes[1]);
    }
    match stage {
        StageView::Finding => {},
        StageView::Creating => {},
        StageView::Swapping { session_id, prompt } => {
            if let Ok(Event::Model(context_length)) = outcomes.last() {
                let scene = Scene { session_id, prompt, context_length };
                assert(scene_known(request, outcomes, scene));
            }
        },
        StageView::Counting { scene } => {
            lemma_scene_kept(request, outcomes, scene);
        },
        StageView::Saving { scene } => {
            lemma_scene_kept(request, outcomes, scene);
        },
        StageView::Remembering { scene } => {
            lemma_scene_kept(request, outcomes, scene);
        },
        StageView::CountingResult { scene, index, payload } => {
            lemma_scene_kept(request, outcomes, scene);
        },
        StageView::SavingResult { scene, index } => {
            lemma_scene_kept(request, outcomes, scene);
        },
        StageView::Reloading { scene } => {
            lemma_scene_kept(request, outcomes, scene);
        },
        StageView::Loading { scene } => {
            lemma_scene_kept(request, outcomes, scene);
            if let Ok(Event::Context { history, memories }) = outcomes.last() {
                let b = prompt_start(request, scene, history@, memories@);
                assert(builder_known(request, outcomes, scene, b, n));
                lemma_measured(request, outcomes, scene, b, n);
            }
        },
        StageView::Measuring { scene, builder } => {
            lemma_scene_kept(request, outcomes, scene);
            let c = choose|c: int| #[trigger] builder_known(request, front, scene, builder, c);
            if let Ok(Event::Counted(m)) = outcomes.last() {
                let b = BuilderView { answers: builder.answers.push(m), ..builder };
                assert(outcomes[c] == front[c]);
                assert forall|k: int| 0 <= k < b.answers.len() implies outcomes[c + 1 + k] == Ok::<
                    Event,
                    AppError,
                >(Event::Counted(#[trigger] b.answers[k])) by {
                    if k < builder.answers.len() {
                        assert(front[c + 1 + k] == Ok::<Event, AppError>(
                            Event::Counted(builder.answers[k]),
                        ));
                    }
                }
                assert(builder_known(request, outcomes, scene, b, c));
                lemma_measured(request, outcomes, scene, b, c);
            }
        },
        StageView::Generating { scene } => {
            lemma_scene_kept(request, outcomes, scene);
        },
        StageView::Persisting { scene, draft } => {
            lemma_scene_kept(request, outcomes, scene);
            assert(outcomes[n - 1] == front.last());
        },
        StageView::Touching { reply } => {},
        StageView::Over => {},
    }
}

/// What a turn answers with: behind the generation, its storing and the touching of the
/// session. The agent, on both of its routes, answers with the tool calls that the model made
/// wherever it made any, and with a message only where it made none; the others always answer
/// with a message. The answer names the message that was stored, and the tokens of the
/// generation.
pub proof fn law_answer_is_what_the_model_said(
    request: TurnRequest,
    outcomes: Seq<Result<Event, AppError>>,
)
    ensures
        replay(request, outcomes) matches Ok((stage, log)) ==> (
        log.last() matches ActionView::Answer(reply) ==> {
            &&& outcomes.len() >= 3
            &&& outcomes[outcomes.len() - 3] matches Ok(Event::Generated(g))
            &&& outcomes[outcomes.len() - 2] matches Ok(Event::Inserted(m))
            &&& outcomes[outcomes.len() - 1] == Ok::<Event, AppError>(Event::Touched)
            &&& answers_with(request, reply, g, m)
        }),
{
    if outcomes.len() > 0 {
        let front = outcomes.drop_last();
        lemma_known(request, front);
        if let Ok((stage, log)) = replay(request, front) {
            if let Ok((next, action)) = step(request, stage, outcomes.last()) {
                if action is Answer {
                    assert(stage is Touching);
                    assert(outcomes[outcomes.len() - 1] == outcomes.last());
                    assert(outcomes[outcomes.len() - 2] == front[front.len() - 1]);
                    assert(outcomes[outcomes.len() - 3] == front[front.len() - 2]);
                }
            }
        }
    }
}

/// A reply to a generation that was stored as a message.
pub open spec fn answers_with(
    request: TurnRequest,
    reply: ReplyView,
    g: Generated,
    m: Message,
) -> bool {
    let calls = parser::parsed_calls(g.text@);
    let agent = request.route == Route::Agent || request.route == Route::AgentContinue;
    match reply {
        ReplyView::ToolCalls { assistant_id, calls: shown, prose, usage } => {
            &&& agent
            &&& calls.len() > 0
            &&& assistant_id == m.id
            &&& shown == calls
            &&& prose == parser::parsed_prose(g.text@)
            &&& tells(usage, g)
        },
        ReplyView::Message { session_id, message, usage } => {
            &&& agent ==> calls.len() == 0
            &&& message == m
            &&& tells(usage, g)
        },
    }
}

/// The tokens of a generation, and their sum as far as a number holds it.
pub open spec fn tells(usage: Usage, g: Generated) -> bool {
    &&& usage.prompt_tokens == g.prompt_tokens
    &&& usage.completion_tokens == g.completion_tokens
    &&& g.prompt_tokens + g.completion_tokens <= u32::MAX ==> usage.total_tokens == g.prompt_tokens
        + g.completion_tokens
}

/// What a turn stores, and when: what the user said, once it is counted, on every route but
/// that of tool results; a tool result on that route alone; and the answer of the model right
/// behind the generation. The agent stores the tool calls that the model made, written out
/// behind its prose; else the prose; on the other routes the text is stored as it is.
pub proof fn law_what_is_stored(request: TurnRequest, outcomes: Seq<Result<Event, AppError>>)
    requires
        outcomes.len() > 0,
    ensures
        replay(request, outcomes) matches Ok((stage, log)) ==> (
        log.last() matches ActionView::Insert { session_id, role, content, tokens } ==> {
            let agent = request.route == Route::Agent || request.route == Route::AgentContinue;
            &&& role == Role::User ==> request.route != Route::AgentContinue && content
                == request.content@ && log[log.len() - 2] == ActionView::CountTokens(content)
                && numbers(outcomes.last(), tokens)
            &&& role == Role::Tool ==> request.route == Route::AgentContinue && log[log.len() - 2]
                == ActionView::CountTokens(content) && numbers(outcomes.last(), tokens)
            &&& role == Role::Assistant ==> (outcomes.last() matches Ok(Event::Generated(g)) && {
                &&& tokens == g.completion_tokens
                &&& agent && parser::parsed_calls(g.text@).len() > 0 ==> content
                    == markup::assistant_text(
                    parser::parsed_prose(g.text@),
                    parser::parsed_calls(g.text@),
                )
                &&& agent && parser::parsed_calls(g.text@).len() == 0 ==> content
                    == parser::parsed_prose(g.text@)
                &&& !agent ==> content == g.text@
            })
            &&& role != Role::System
        }),
{
    let front = outcomes.drop_last();
    lemma_stored(request, front);
    lemma_asked_last(request, front);
}

/// The engine counted so many tokens, as far as a number holds them.
pub open spec fn numbers(outcome: Result<Event, AppError>, tokens: int) -> bool {
    outcome matches Ok(Event::Counted(n)) && tokens == (if n <= i64::MAX {
        n as int
    } else {
        i64::MAX as int
    })
}

/// What a turn asked for last at a stage that waits for a number, or for a message to be
/// stored.
proof fn lemma_asked_last(request: TurnRequest, outcomes: Seq<Result<Event, AppError>>)
    ensures
        replay(request, outcomes) matches Ok((stage, log)) ==> {
            &&& log.len() == outcomes.len() + 1
            &&& stage is Counting ==> log.last() == ActionView::CountTokens(request.content@)
            &&& stage matches StageView::CountingResult { scene, index, payload } ==> log.last()
                == ActionView::CountTokens(payload)
            &&& stage matches StageView::Touching { reply } ==> log.last() is Touch
            &&& stage is Persisting ==> stores_answer(log.last())
            &&& stage is Remembering ==> log.last() is StoreFacts
        },
    decreases outcomes.len(),
{
    if outcomes.len() > 0 {
        lemma_asked_last(request, outcomes.drop_last());
    }
}

/// An action stores the answer of the assistant.
pub open spec fn stores_answer(a: ActionView) -> bool {
    a matches ActionView::Insert { session_id, role, content, tokens } && role == Role::Assistant
}

/// Before a turn answers, it stores the answer and then marks the session as touched.
pub proof fn law_answer_comes_last(request: TurnRequest, outcomes: Seq<Result<Event, AppError>>)
    ensures
        replay(request, outcomes) matches Ok((stage, log)) ==> (log.last() is Answer ==> {
            &&& log.len() >= 3
            &&& log[log.len() - 2] is Touch
            &&& stores_answer(log[log.len() - 3])
        }),
{
    if outcomes.len() > 0 {
        let front = outcomes.drop_last();
        lemma_asked_last(request, front);
        lemma_known(request, front);
        if front.len() > 0 {
            let before = front.drop_last();
            lemma_asked_last(request, before);
        }
    }
}

/// A turn learns the facts of what the user said, right behind storing it, on every route but
/// that of tool results, and it does so before the model is run.
pub proof fn law_facts_are_learned(request: TurnRequest, outcomes: Seq<Result<Event, AppError>>)
    ensures
        replay(request, outcomes) matches Ok((stage, log)) ==> {
            &&& log.last() matches ActionView::StoreFacts(learned) ==> {
                &&& learned == memory::facts(request.content@, memory::unicode_lower())
                &&& request.route != Route::AgentContinue
                &&& log.len() >= 2
                &&& stores(log[log.len() - 2], Role::User, request.content@)
            }
            &&& log.last() is Generate && request.route != Route::AgentContinue ==> has_learned(log)
        },
{
    lemma_learned(request, outcomes);
    lemma_generate_stage(request, outcomes);
}

/// Some action of a log stores facts.
pub open spec fn has_learned(log: Seq<ActionView>) -> bool {
    exists|i: int| 0 <= i < log.len() && (#[trigger] log[i]) is StoreFacts
}

proof fn lemma_learned(request: TurnRequest, outcomes: Seq<Result<Event, AppError>>)
    ensures
        replay(request, outcomes) matches Ok((stage, log)) ==> {
            &&& log.len() == outcomes.len() + 1
            &&& stage is Saving ==> stores(log.last(), Role::User, request.content@)
                && request.route != Route::AgentContinue
            &&& stage is Counting ==> request.route != Route::AgentContinue
            &&& log.last() matches ActionView::StoreFacts(learned) ==> {
                &&& learned == memory::facts(request.content@, memory::unicode_lower())
                &&& request.route != Route::AgentContinue
                &&& log.len() >= 2
                &&& stores(log[log.len() - 2], Role::User, request.content@)
            }
            &&& request.route != Route::AgentContinue ==> match stage {
                StageView::Finding | StageView::Creating => true,
                StageView::Swapping { session_id, prompt } => true,
                StageView::Counting { scene } => true,
                StageView::Saving { scene } => true,
                StageView::CountingResult { scene, index, payload } => false,
                StageView::SavingResult { scene, index } => false,
                _ => has_learned(log),
            }
        },
    decreases outcomes.len(),
{
    if outcomes.len() > 0 {
        let front = outcomes.drop_last();
        lemma_learned(request, front);
        if let Ok((stage, log)) = replay(request, front) {
            if let Ok((next, action)) = step(request, stage, outcomes.last()) {
                let grown = log.push(action);
                if has_learned(log) {
                    let i = choose|i: int|
                        0 <= i < log.len() && (#[trigger] log[i]) is StoreFacts;
                    assert(grown[i] == log[i]);
                }
                if action is StoreFacts {
                    assert(grown[log.len() as int] == action);
                }
                assert(grown[log.len() - 1] == log.last());
            }
        }
    }
}

/// The texts of the tool results that a log stores, in order.
pub open spec fn results_told(log: Seq<ActionView>) -> Seq<Seq<char>>
    decreases log.len(),
{
    if log.len() == 0 {
        Seq::empty()
    } else {
        match log.last() {
            ActionView::Insert { session_id, role, content, tokens } => if role == Role::Tool {
                results_told(log.drop_last()).push(content)
            } else {
                results_told(log.drop_last())
            },
            _ => results_told(log.drop_last()),
        }
    }
}

/// The texts of tool results as the model reads them, in order.
pub open spec fn results_texts(results: Seq<ToolResult>) -> Seq<Seq<char>> {
    results.map_values(
        |r: ToolResult| tools::tool_response_text(r.id@, r.ok, r.content@),
    )
}

/// The tool results that come in are stored one after the other, each of them once and in
/// order, and all of them before the model is run. On the other routes none is stored.
pub proof fn law_results_are_stored_in_order(
    request: TurnRequest,
    outcomes: Seq<Result<Event, AppError>>,
)
    ensures
        replay(request, outcomes) matches Ok((stage, log)) ==> {
            &&& results_told(log).is_prefix_of(
                if request.route == Route::AgentContinue {
                    results_texts(request.results@)
                } else {
                    Seq::empty()
                },
            )
            &&& log.last() is Generate && request.route == Route::AgentContinue ==> results_told(
                log,
            ) == results_texts(request.results@)
        },
{
    lemma_told(request, outcomes);
    lemma_generate_stage(request, outcomes);
}

proof fn lemma_told(request: TurnRequest, outcomes: Seq<Result<Event, AppError>>)
    ensures
        replay(request, outcomes) matches Ok((stage, log)) ==> {
            let all = results_texts(request.results@);
            let told = results_told(log);
            &&& log.len() > 0
            &&& request.route != Route::AgentContinue ==> told.len() == 0 && stage !is CountingResult
                && stage !is SavingResult
            &&& request.route == Route::AgentContinue ==> match stage {
                StageView::Finding | StageView::Creating => told.len() == 0,
                StageView::Swapping { session_id, prompt } => told.len() == 0,
                StageView::Counting { scene } => false,
                StageView::Saving { scene } => false,
                StageView::Remembering { scene } => false,
                StageView::CountingResult { scene, index, payload } => 0 <= index < all.len()
                    && payload == all[index] && told == all.take(index),
                StageView::SavingResult { scene, index } => 0 <= index < all.len() && told
                    == all.take(index + 1),
                _ => told == all,
            }
        },
    decreases outcomes.len(),
{
    let all = results_texts(request.results@);
    if outcomes.len() > 0 {
        let front = outcomes.drop_last();
        lemma_told(request, front);
        if let Ok((stage, log)) = replay(request, front) {
            if let Ok((next, action)) = step(request, stage, outcomes.last()) {
                let grown = log.push(action);
                assert(grown.drop_last() =~= log);
                assert(all.take(0) =~= Seq::<Seq<char>>::empty());
                assert(all.take(all.len() as int) =~= all);
                if let StageView::CountingResult { scene, index, payload } = stage {
                    assert(all.take(index + 1) =~= all.take(index).push(all[index]));
                }
            }
        }
    } else {
        let log = seq![first_action(request)];
        reveal_with_fuel(results_told, 2);
        assert(log.drop_last() =~= Seq::<ActionView>::empty());
    }
}

/// A turn looks for the session that was asked for, or on the chat route for the one that was
/// touched last; where there is none, it creates one called `chat` with the system prompt of
/// the request. It makes the model of the session ready that it came to.
pub proof fn law_session_comes_first(request: TurnRequest, outcomes: Seq<Result<Event, AppError>>)
    ensures
        replay(request, outcomes) matches Ok((stage, log)) ==> {
            &&& log.len() > 0
            &&& log[0] == (if request.route == Route::Chat {
                ActionView::FindRecent
            } else {
                ActionView::FindSession(request.session_id)
            })
            &&& log.last() matches ActionView::CreateSession { title, system_prompt } ==> title
                == "chat"@ && system_prompt == types::optional_text(request.system_prompt)
            &&& log.last() matches ActionView::EnsureModel(name) ==> (session_found(
                outcomes,
            ) matches Some(s) && name == s.model_name@)
        },
    decreases outcomes.len(),
{
    if outcomes.len() > 0 {
        let front = outcomes.drop_last();
        law_session_comes_first(request, front);
        lemma_known(request, front);
        assert(outcomes[outcomes.len() - 1] == outcomes.last());
        if front.len() > 0 {
            assert(front[0] == outcomes[0]);
        }
    }
}

/// What comes of an action where it succeeds.
pub open spec fn succeeds(a: ActionView, event: Event) -> bool {
    match a {
        ActionView::FindSession(_) => event is Session,
        ActionView::FindRecent => event is Recent,
        ActionView::CreateSession { title, system_prompt } => event is Session,
        ActionView::EnsureModel(_) => event is Model,
        ActionView::CountTokens(_) => event is Counted,
        ActionView::Insert { session_id, role, content, tokens } => event is Inserted,
        ActionView::StoreFacts(_) => event is Stored,
        ActionView::LoadContext(_) => event is Context,
        ActionView::Generate { turns, max_tokens, stops, streaming } => event is Generated
            && !streaming,
        ActionView::Touch(_) => event is Touched,
        ActionView::Answer(_) => false,
    }
}

/// What follows an action that succeeded.
pub open spec fn follows(
    request: TurnRequest,
    first: bool,
    a: ActionView,
    event: Event,
    next: ActionView,
) -> bool {
    let agent = request.route == Route::Agent || request.route == Route::AgentContinue;
    match a {
        ActionView::FindRecent => match event {
            Event::Recent(Some(s)) => next == ActionView::EnsureModel(s.model_name@),
            _ => next is CreateSession,
        },
        ActionView::FindSession(_) => if first {
            event matches Event::Session(s) && next == ActionView::EnsureModel(s.model_name@)
        } else {
            next is LoadContext
        },
        ActionView::CreateSession { title, system_prompt } => event matches Event::Session(s) && next
            == ActionView::EnsureModel(s.model_name@),
        ActionView::EnsureModel(_) => if request.route != Route::AgentContinue {
            next == ActionView::CountTokens(request.content@)
        } else {
            next is CountTokens || next is FindSession
        },
        ActionView::CountTokens(_) => next is Insert || next is CountTokens || next is Generate,
        ActionView::Insert { session_id, role, content, tokens } => match role {
            Role::User => next is StoreFacts,
            Role::Assistant => next is Touch,
            _ => next is CountTokens || next is FindSession,
        },
        ActionView::StoreFacts(_) => if agent {
            next is FindSession
        } else {
            next is LoadContext
        },
        ActionView::LoadContext(_) => next is CountTokens || next is Generate,
        ActionView::Generate { turns, max_tokens, stops, streaming } => stores_answer(next),
        ActionView::Touch(_) => next is Answer,
        ActionView::Answer(_) => false,
    }
}

/// A turn goes on wherever its action succeeds, and on the path that leads from the session
/// over what came in and the history to the model, and from the model over the stored answer
/// to the reply. A stream leaves it where the model is run.
pub proof fn law_turn_goes_on(
    request: TurnRequest,
    outcomes: Seq<Result<Event, AppError>>,
    event: Event,
)
    ensures
        replay(request, outcomes) matches Ok((stage, log)) ==> (log.len() > 0 && (succeeds(
            log.last(),
            event,
        ) ==> (replay(request, outcomes.push(Ok(event))) matches Ok((later, grown)) && grown.len()
            == log.len() + 1 && grown.drop_last() == log && follows(
            request,
            log.len() == 1,
            log.last(),
            event,
            grown.last(),
        )))),
{
    lemma_waits(request, outcomes);
    lemma_learned(request, outcomes);
    let more = outcomes.push(Ok(event));
    assert(more.drop_last() =~= outcomes);
    if let Ok((stage, log)) = replay(request, outcomes) {
        if let Ok((later, grown)) = replay(request, more) {
            assert(grown.drop_last() =~= log);
        }
    }
}

/// What each stage waits for was asked for last.
spec fn waits_for(request: TurnRequest, stage: StageView, log: Seq<ActionView>) -> bool {
    let a = log.last();
    match stage {
        StageView::Finding => log.len() == 1 && (if request.route == Route::Chat {
            a is FindRecent
        } else {
            a is FindSession
        }),
        StageView::Creating => log.len() == 2 && a is CreateSession,
        StageView::Swapping { session_id, prompt } => log.len() > 1 && a is EnsureModel,
        StageView::Counting { scene } => log.len() > 1 && a is CountTokens && request.route
            != Route::AgentContinue,
        StageView::Saving { scene } => log.len() > 1 && (a matches ActionView::Insert {
            session_id,
            role,
            content,
            tokens,
        } && role == Role::User),
        StageView::Remembering { scene } => log.len() > 1 && a is StoreFacts,
        StageView::CountingResult { scene, index, payload } => log.len() > 1 && a is CountTokens
            && request.route == Route::AgentContinue,
        StageView::SavingResult { scene, index } => log.len() > 1 && request.route
            == Route::AgentContinue && (a matches ActionView::Insert {
            session_id,
            role,
            content,
            tokens,
        } && role == Role::Tool),
        StageView::Reloading { scene } => log.len() > 1 && a is FindSession,
        StageView::Loading { scene } => log.len() > 1 && a is LoadContext,
        StageView::Measuring { scene, builder } => log.len() > 1 && a is CountTokens,
        StageView::Generating { scene } => log.len() > 1 && (a matches ActionView::Generate {
            turns,
            max_tokens,
            stops,
            streaming,
        } && !streaming),
        StageView::Persisting { scene, draft } => log.len() > 1 && stores_answer(a),
        StageView::Touching { reply } => log.len() > 1 && a is Touch,
        StageView::Over => log.len() > 1 && (a is Answer || (a matches ActionView::Generate {
            turns,
            max_tokens,
            stops,
            streaming,
        } && streaming)),
    }
}

proof fn lemma_waits(request: TurnRequest, outcomes: Seq<Result<Event, AppError>>)
    ensures
        replay(request, outcomes) matches Ok((stage, log)) ==> waits_for(request, stage, log),
    decreases outcomes.len(),
{
    if outcomes.len() > 0 {
        lemma_waits(request, outcomes.drop_last());
    }
}

/// The history and the memories have been read.
pub open spec fn has_read(outcomes: Seq<Result<Event, AppError>>) -> bool {
    exists|i: int|
        0 <= i < outcomes.len() && (#[trigger] outcomes[i] matches Ok(Event::Context {
            history,
            memories,
        }))
}

/// The text that is counted next is that which the prompt of what was read at `c` needs
/// behind those that were counted.
pub open spec fn counts_next(
    request: TurnRequest,
    outcomes: Seq<Result<Event, AppError>>,
    t: Seq<char>,
    c: int,
    answers: Seq<usize>,
) -> bool {
    &&& session_found(outcomes) matches Some(session)
    &&& 0 <= c < outcomes.len()
    &&& outcomes[c] matches Ok(Event::Context { history, memories })
    &&& counted_from(outcomes, c + 1, answers)
    &&& {
        let system = context::system_block(
            top_of(request),
            memories@,
            types::optional_text(session.system_prompt),
        );
        &&& answers.len() < context::queries(system, history@).len()
        &&& t == context::queries(system, history@)[answers.len() as int]
    }
}

/// Once the history is read, what a turn has counted is the texts that the prompt needs, one
/// after the other.
pub proof fn law_prompt_is_counted_in_turn(
    request: TurnRequest,
    outcomes: Seq<Result<Event, AppError>>,
)
    requires
        has_read(outcomes),
    ensures
        replay(request, outcomes) matches Ok((stage, log)) ==> (
        log.last() matches ActionView::CountTokens(t) ==> exists|c: int, answers: Seq<usize>|
            #[trigger]
            counts_next(request, outcomes, t, c, answers)),
{
    lemma_counts(request, outcomes);
    lemma_known(request, outcomes);
    if let Ok((stage, log)) = replay(request, outcomes) {
        if let StageView::Measuring { scene, builder } = stage {
            let c = choose|c: int| #[trigger]
                builder_known(request, outcomes, scene, builder, c);
            if let ActionView::CountTokens(t) = log.last() {
                assert(counts_next(request, outcomes, t, c, builder.answers));
            }
        }
    }
}

proof fn lemma_counts(request: TurnRequest, outcomes: Seq<Result<Event, AppError>>)
    ensures
        replay(request, outcomes) matches Ok((stage, log)) ==> {
            &&& log.len() > 0
            &&& log.last() is CountTokens ==> stage is Counting || stage is CountingResult
                || stage is Measuring
            &&& match stage {
                StageView::Measuring { scene, builder } => builder.answers.len() < context::queries(
                    builder.system,
                    builder.history,
                ).len() && log.last() == ActionView::CountTokens(
                    context::queries(
                        builder.system,
                        builder.history,
                    )[builder.answers.len() as int],
                ),
                StageView::Generating { scene } => true,
                StageView::Persisting { scene, draft } => true,
                StageView::Touching { reply } => true,
                StageView::Over => true,
                _ => !has_read(outcomes),
            }
        },
    decreases outcomes.len(),
{
    if outcomes.len() > 0 {
        let front = outcomes.drop_last();
        lemma_counts(request, front);
        if has_read(outcomes) {
            let i = choose|i: int|
                0 <= i < outcomes.len() && (#[trigger] outcomes[i] matches Ok(Event::Context {
                    history,
                    memories,
                }));
            if i < front.len() {
                assert(front[i] == outcomes[i]);
            } else {
                assert(outcomes[i] == outcomes.last());
            }
        }
    }
}

/// A request is taken exactly where its limit is more than nothing and, unless it brings tool
/// results, its message has a character that is no white space.
pub proof fn law_requests_that_are_taken(request: TurnRequest)
    ensures
        request_fault(request) is None <==> request.max_tokens > 0 && (request.route
            == Route::AgentContinue || exists|i: int|
            0 <= i < request.content@.len() && !text::is_white(#[trigger] request.content@[i])),
{
    api::law_messages_that_are_taken(request.content@, request.max_tokens);
}

} // verus!
