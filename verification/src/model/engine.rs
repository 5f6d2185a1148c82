//! Inference.
//!
//! The engine that evaluates a model is driven from outside. What it is asked to
//! do, and when a generation ends, is decided here: how a prompt is fed in
//! batches, how sampled tokens become text, where the token limit, the context
//! window or a stop sequence ends the run, and which events a stream carries.

use vstd::prelude::*;
use vstd::string::*;

use crate::error::AppError;
use crate::error::ErrorView;
use crate::text;
use crate::text::{chars_of, decimal_of, find_text, split_words, string_of};
use crate::types::Role;

verus! {

/// A single chat turn fed to the engine.
#[derive(Debug, Clone)]
pub struct ChatTurn {
    pub role: Role,
    pub content: String,
}

/// A chat turn with its text as characters.
pub struct TurnView {
    pub role: Role,
    pub content: Seq<char>,
}

impl View for ChatTurn {
    type V = TurnView;

    open spec fn view(&self) -> TurnView {
        TurnView { role: self.role, content: self.content@ }
    }
}

/// The turns of a list.
pub open spec fn turn_views(turns: Seq<ChatTurn>) -> Seq<TurnView> {
    turns.map_values(|t: ChatTurn| t@)
}

/// Result of a generation.
#[derive(Debug, Clone)]
pub struct Generated {
    pub text: String,
    pub prompt_tokens: u32,
    pub completion_tokens: u32,
}

/// Optional parameters of a generation.
#[derive(Debug, Clone)]
pub struct GenerateOpts {
    /// Where one of these appears in the running output, the generation stops at
    /// once with what there is. The stop sequence itself is part of the text.
    pub stop_sequences: Vec<String>,
}

impl Default for GenerateOpts {
    fn default() -> (opts: Self)
        ensures
            opts.stop_sequences@.len() == 0,
    {
        GenerateOpts { stop_sequences: Vec::new() }
    }
}

/// What a streaming generation sends: tokens as they are sampled and, at the end,
/// the whole text with the numbers of tokens, or an error.
#[derive(Debug, Clone)]
pub enum StreamEvent {
    Token(String),
    Done {
        prompt_tokens: u32,
        completion_tokens: u32,
        /// The whole text: all tokens, one after the other.
        text: String,
    },
    Error(String),
}

// ---------------------------------------------------------------------------
// Feeding the prompt
// ---------------------------------------------------------------------------

/// The most tokens that are fed in one batch.
pub const MAX_BATCH: u32 = 10000;

/// How a prompt is fed to the engine.
#[derive(Debug, Clone, Copy, PartialEq, Eq, Structural)]
pub struct PromptPlan {
    /// Tokens of the prompt.
    pub n_prompt: u32,
    /// Tokens of the context window.
    pub n_ctx: u32,
    /// The most tokens of one batch.
    pub n_batch: u32,
}

/// What is said of a prompt that does not fit.
pub open spec fn too_long_text(n_prompt: u32, context_length: u32) -> Seq<char> {
    "prompt of "@ + text::decimal(n_prompt as nat) + " tokens exceeds context length "@
        + text::decimal(context_length as nat)
}

/// Plans how a prompt of `n_prompt` tokens is fed into a context window. One that
/// leaves no room for a reply is refused.
pub fn plan_prompt(n_prompt: u32, context_length: u32) -> (r: Result<PromptPlan, AppError>)
    ensures
        match r {
            Ok(plan) => n_prompt < context_length && plan.n_prompt == n_prompt && plan.n_ctx
                == context_length && plan.n_batch == (if context_length < 10000 {
                context_length
            } else {
                10000
            }),
            Err(e) => n_prompt >= context_length && e@ == ErrorView::BadRequest(
                too_long_text(n_prompt, context_length),
            ),
        },
{
    if n_prompt >= context_length {
        let mut s = "prompt of ".to_owned();
        s.append(decimal_of(n_prompt as u64).as_str());
        s.append(" tokens exceeds context length ");
        s.append(decimal_of(context_length as u64).as_str());
        return Err(AppError::BadRequest(s));
    }
    let n_batch: u32 = if context_length < MAX_BATCH {
        context_length
    } else {
        MAX_BATCH
    };
    Ok(PromptPlan { n_prompt, n_ctx: context_length, n_batch })
}

/// The smaller of two numbers.
pub open spec fn smaller(a: int, b: int) -> int {
    if a < b {
        a
    } else {
        b
    }
}

/// The batches that the tokens from `from` up to `n` are fed in, each with the
/// position that it starts at and the one that it ends before.
pub open spec fn batches(from: int, n: int, size: int) -> Seq<(int, int)>
    decreases n - from,
{
    if from >= n || size <= 0 {
        Seq::empty()
    } else {
        seq![(from, smaller(from + size, n))] + batches(smaller(from + size, n), n, size)
    }
}

/// A list of batches, as integers.
pub open spec fn batch_views(v: Seq<(u32, u32)>) -> Seq<(int, int)> {
    v.map_values(|b: (u32, u32)| (b.0 as int, b.1 as int))
}

impl PromptPlan {
    /// A batch can hold a token.
    pub open spec fn wf(self) -> bool {
        self.n_batch > 0
    }

    /// The batches that the prompt is fed in.
    pub fn chunks(&self) -> (out: Vec<(u32, u32)>)
        requires
            self.wf(),
        ensures
            batch_views(out@) == batches(0, self.n_prompt as int, self.n_batch as int),
    {
        let n = self.n_prompt;
        let size = self.n_batch;
        let mut out: Vec<(u32, u32)> = Vec::new();
        let mut start: u32 = 0;
        assert(batch_views(out@) + batches(0, n as int, size as int) =~= batches(
            0,
            n as int,
            size as int,
        ));
        while start < n
            invariant
                start <= n,
                size > 0,
                batch_views(out@) + batches(start as int, n as int, size as int) == batches(
                    0,
                    n as int,
                    size as int,
                ),
            decreases n - start,
        {
            let ghost before = out@;
            let end: u32 = if size <= n - start {
                start + size
            } else {
                n
            };
            out.push((start, end));
            proof {
                assert(batch_views(out@) =~= batch_views(before).push((start as int, end as int)));
                assert(batch_views(out@) + batches(end as int, n as int, size as int)
                    =~= batch_views(before) + batches(start as int, n as int, size as int));
            }
            start = end;
        }
        assert(batch_views(out@) + batches(n as int, n as int, size as int) =~= batch_views(out@));
        out
    }

    /// Tells whether the engine has to keep the logits of the token at `position`:
    /// those of the last token of the prompt alone.
    pub fn wants_logits(&self, position: u32) -> (r: bool)
        ensures
            r == (position + 1 == self.n_prompt),
    {
        self.n_prompt > 0 && position == self.n_prompt - 1
    }
}

/// An unsigned number as a signed one of the same bits.
pub open spec fn as_signed(n: int) -> int {
    if n > i32::MAX {
        n - 0x1_0000_0000
    } else {
        n
    }
}

/// An unsigned number as a signed one of the same bits.
pub fn signed_position(n: u32) -> (r: i32)
    ensures
        r == as_signed(n as int),
{
    if n <= 0x7fff_ffff {
        n as i32
    } else {
        (n as i64 - 0x1_0000_0000) as i32
    }
}

// ---------------------------------------------------------------------------
// Sampling
// ---------------------------------------------------------------------------

/// One sampled token.
#[derive(Debug, Clone)]
pub enum Sample {
    /// The token that ends the text.
    Eos,
    /// The text that a token adds, or `None` where it could not be decoded.
    Token(Option<String>),
}

/// A sampled token with its text as characters.
pub enum SampleView {
    Eos,
    Token(Seq<char>),
}

impl View for Sample {
    type V = SampleView;

    open spec fn view(&self) -> SampleView {
        match *self {
            Sample::Eos => SampleView::Eos,
            Sample::Token(Some(piece)) => SampleView::Token(piece@),
            Sample::Token(None) => SampleView::Token(Seq::empty()),
        }
    }
}

/// What has to be done with a sampled token.
#[derive(Debug, Clone)]
pub struct Step {
    /// The text to send on, where the token adds any.
    pub emit: Option<String>,
    /// The position at which the token is fed back, where the generation goes on.
    pub feed: Option<i32>,
}

/// A generation in progress.
pub struct GenerationView {
    pub stops: Seq<Seq<char>>,
    pub max_tokens: int,
    pub n_prompt: int,
    pub pos: int,
    pub max_pos: int,
    pub text: Seq<char>,
    pub completion: int,
    pub finished: bool,
}

/// Some stop sequence appears in `t`.
pub open spec fn stop_seen(stops: Seq<Seq<char>>, t: Seq<char>) -> bool {
    exists|k: int| 0 <= k < stops.len() && text::has_text(t, #[trigger] stops[k])
}

impl GenerationView {
    /// A generation that goes on has not seen a stop sequence. (An empty one is
    /// seen with the first token.)
    pub open spec fn wf(self) -> bool {
        &&& 0 <= self.completion <= u32::MAX
        &&& 0 <= self.max_tokens <= u32::MAX
        &&& i32::MIN <= self.pos <= i32::MAX
        &&& i32::MIN <= self.max_pos <= i32::MAX
        &&& !self.finished ==> forall|k: int|
            0 <= k < self.stops.len() && (#[trigger] self.stops[k]).len() > 0 ==> !text::has_text(
                self.text,
                self.stops[k],
            )
    }

    /// Another token is sampled: the text has not ended, and neither the token
    /// limit nor the end of the context window is reached.
    pub open spec fn wants_token(self) -> bool {
        !self.finished && self.completion < self.max_tokens && self.pos < self.max_pos
    }

    /// The generation after one more token.
    pub open spec fn advance(self, sample: SampleView) -> GenerationView {
        match sample {
            SampleView::Eos => GenerationView { finished: true, ..self },
            SampleView::Token(piece) => {
                let grown = self.text + piece;
                let stop = stop_seen(self.stops, grown);
                GenerationView {
                    text: grown,
                    completion: self.completion + 1,
                    finished: stop,
                    pos: if stop {
                        self.pos
                    } else {
                        self.pos + 1
                    },
                    ..self
                }
            },
        }
    }
}

/// A generation before its first token.
pub open spec fn generation_start(
    n_prompt: u32,
    context_length: u32,
    max_tokens: u32,
    stops: Seq<Seq<char>>,
) -> GenerationView {
    GenerationView {
        stops,
        max_tokens: max_tokens as int,
        n_prompt: n_prompt as int,
        pos: as_signed(n_prompt as int),
        max_pos: as_signed(context_length as int),
        text: Seq::empty(),
        completion: 0,
        finished: false,
    }
}

/// A generation in progress: the text so far and what limits it.
pub struct Generation {
    stops: Vec<Vec<char>>,
    max_tokens: u32,
    n_prompt: u32,
    pos: i32,
    max_pos: i32,
    output: Vec<char>,
    completion_tokens: u32,
    finished: bool,
}

/// The texts of a list of character lists.
pub open spec fn char_texts(v: Seq<Vec<char>>) -> Seq<Seq<char>> {
    v.map_values(|s: Vec<char>| s@)
}

impl View for Generation {
    type V = GenerationView;

    closed spec fn view(&self) -> GenerationView {
        GenerationView {
            stops: char_texts(self.stops@),
            max_tokens: self.max_tokens as int,
            n_prompt: self.n_prompt as int,
            pos: self.pos as int,
            max_pos: self.max_pos as int,
            text: self.output@,
            completion: self.completion_tokens as int,
            finished: self.finished,
        }
    }
}

/// Once a text is known to be free of `stop`, only its tail can hold `stop` when it
/// grows.
proof fn lemma_tail_is_enough(t: Seq<char>, piece: Seq<char>, stop: Seq<char>, from: int)
    requires
        stop.len() > 0,
        !text::has_text(t, stop),
        0 <= from,
        from <= 0 || from <= t.len() + 1 - stop.len(),
    ensures
        text::has_text(t + piece, stop) <==> text::find_from(t + piece, stop, from) is Some,
{
    let grown = t + piece;
    text::lemma_find_from(grown, stop, from);
    if text::find_from(grown, stop, from) is Some {
        assert(text::occurs_at(grown, stop, text::find_from(grown, stop, from)->0));
    }
    if text::has_text(grown, stop) {
        let i = choose|i: int| text::occurs_at(grown, stop, i);
        if i < from {
            assert(grown.subrange(i, i + stop.len()) =~= t.subrange(i, i + stop.len()));
            assert(text::occurs_at(t, stop, i));
        }
    }
}

impl Generation {
    /// Starts a generation on a prompt that was fed as planned.
    pub fn start(plan: &PromptPlan, max_tokens: u32, opts: &GenerateOpts) -> (g: Generation)
        ensures
            g@ == generation_start(
                plan.n_prompt,
                plan.n_ctx,
                max_tokens,
                text::texts(opts.stop_sequences@),
            ),
            g@.wf(),
    {
        let mut stops: Vec<Vec<char>> = Vec::new();
        let mut i: usize = 0;
        while i < opts.stop_sequences.len()
            invariant
                i <= opts.stop_sequences@.len(),
                stops@.len() == i,
                forall|k: int|
                    0 <= k < i ==> (#[trigger] stops@[k])@ == opts.stop_sequences@[k]@,
            decreases opts.stop_sequences@.len() - i,
        {
            let s = chars_of(opts.stop_sequences[i].as_str());
            stops.push(s);
            i = i + 1;
        }
        let g = Generation {
            stops,
            max_tokens,
            n_prompt: plan.n_prompt,
            pos: signed_position(plan.n_prompt),
            max_pos: signed_position(plan.n_ctx),
            output: Vec::new(),
            completion_tokens: 0,
            finished: false,
        };
        proof {
            assert(g@.stops =~= text::texts(opts.stop_sequences@));
            assert(g@.text =~= Seq::<char>::empty());
        }
        g
    }

    /// Tells whether another token is to be sampled.
    pub fn wants_token(&self) -> (r: bool)
        ensures
            r == self@.wants_token(),
    {
        !self.finished && self.completion_tokens < self.max_tokens && self.pos < self.max_pos
    }

    /// Tells whether a stop sequence appears in the output, given that none appeared
    /// in its first `known` characters. Only the tail of the output is searched.
    fn stop_in_tail(&self, known: usize) -> (r: bool)
        requires
            known <= self.output@.len(),
            forall|k: int|
                0 <= k < self@.stops.len() && (#[trigger] self@.stops[k]).len() > 0
                    ==> !text::has_text(self.output@.take(known as int), self@.stops[k]),
        ensures
            r == stop_seen(self@.stops, self@.text),
    {
        let ghost stops = self@.stops;
        let ghost t = self.output@.take(known as int);
        let ghost piece = self.output@.skip(known as int);
        assert(t + piece =~= self.output@);
        let mut k: usize = 0;
        while k < self.stops.len()
            invariant
                k <= self.stops@.len(),
                stops == self@.stops,
                stops == char_texts(self.stops@),
                self@.text == self.output@,
                known <= self.output@.len(),
                t == self.output@.take(known as int),
                t + piece == self.output@,
                forall|j: int|
                    0 <= j < stops.len() && (#[trigger] stops[j]).len() > 0 ==> !text::has_text(
                        t,
                        stops[j],
                    ),
                forall|j: int| 0 <= j < k ==> !text::has_text(self.output@, #[trigger] stops[j]),
            decreases self.stops@.len() - k,
        {
            let stop = &self.stops[k];
            assert(stops[k as int] == stop@);
            if stop.len() == 0 {
                assert(self.output@.subrange(0, 0) =~= stop@);
                assert(text::occurs_at(self.output@, stop@, 0));
                return true;
            }
            let from = if known >= stop.len() - 1 {
                known - (stop.len() - 1)
            } else {
                0
            };
            proof {
                lemma_tail_is_enough(t, piece, stop@, from as int);
            }
            if find_text(&self.output, stop, from).is_some() {
                return true;
            }
            k = k + 1;
        }
        false
    }

    /// Takes in a sampled token, and says what has to be done with it.
    pub fn step(&mut self, sample: Sample) -> (r: Step)
        requires
            old(self)@.wf(),
            old(self)@.wants_token(),
        ensures
            final(self)@ == old(self)@.advance(sample@),
            final(self)@.wf(),
            match r.emit {
                Some(piece) => piece@.len() > 0 && sample@ == SampleView::Token(piece@),
                None => sample@ is Eos || sample@ == SampleView::Token(Seq::empty()),
            },
            match r.feed {
                Some(pos) => !final(self)@.finished && pos == old(self)@.pos,
                None => final(self)@.finished,
            },
    {
        match sample {
            Sample::Eos => {
                self.finished = true;
                Step { emit: None, feed: None }
            },
            Sample::Token(piece) => {
                let known = self.output.len();
                let ghost before = self@;
                let ghost old_stops = self.stops;
                let mut emit: Option<String> = None;
                if let Some(p) = piece {
                    if !p.as_str().is_empty() {
                        let mut chars = chars_of(p.as_str());
                        self.output.append(&mut chars);
                        emit = Some(p);
                    } else {
                        assert(p@ =~= Seq::<char>::empty());
                    }
                }
                self.completion_tokens = self.completion_tokens + 1;
                proof {
                    assert(self.output@ =~= before.text + sample@->Token_0);
                    assert(self.output@.take(known as int) =~= before.text);
                    assert(self@.stops == before.stops);
                }
                if self.stop_in_tail(known) {
                    self.finished = true;
                    Step { emit, feed: None }
                } else {
                    let pos = self.pos;
                    self.pos = self.pos + 1;
                    proof {
                        assert(self@.stops == before.stops);
                        assert forall|k: int|
                            0 <= k < self@.stops.len() && (
                            #[trigger] self@.stops[k]).len() > 0 implies !text::has_text(
                            self@.text,
                            self@.stops[k],
                        ) by {}
                    }
                    Step { emit, feed: Some(pos) }
                }
            },
        }
    }

    /// What was generated.
    pub fn finish(self) -> (g: Generated)
        ensures
            g.text@ == self@.text,
            g.prompt_tokens == self@.n_prompt,
            g.completion_tokens == self@.completion,
    {
        assert(self.output@.subrange(0, self.output@.len() as int) =~= self.output@);
        Generated {
            text: string_of(&self.output, 0, self.output.len()),
            prompt_tokens: self.n_prompt,
            completion_tokens: self.completion_tokens,
        }
    }
}

// ---------------------------------------------------------------------------
// Streaming
// ---------------------------------------------------------------------------

/// An event with its texts as characters.
pub enum EventView {
    Token(Seq<char>),
    Done { prompt_tokens: u32, completion_tokens: u32, text: Seq<char> },
    Error(Seq<char>),
}

impl View for StreamEvent {
    type V = EventView;

    open spec fn view(&self) -> EventView {
        match *self {
            StreamEvent::Token(t) => EventView::Token(t@),
            StreamEvent::Done { prompt_tokens, completion_tokens, text } => EventView::Done {
                prompt_tokens,
                completion_tokens,
                text: text@,
            },
            StreamEvent::Error(m) => EventView::Error(m@),
        }
    }
}

/// The events of a list.
pub open spec fn event_views(events: Seq<StreamEvent>) -> Seq<EventView> {
    events.map_values(|e: StreamEvent| e@)
}

/// The event that ends a successful stream.
pub open spec fn done_event(g: Generated) -> EventView {
    EventView::Done {
        prompt_tokens: g.prompt_tokens,
        completion_tokens: g.completion_tokens,
        text: g.text@,
    }
}

/// The events of a generation that was not streamed: the text in one piece, where
/// there is any, and the end.
pub open spec fn whole_events(g: Generated) -> Seq<EventView> {
    if g.text@.len() > 0 {
        seq![EventView::Token(g.text@), done_event(g)]
    } else {
        seq![done_event(g)]
    }
}

/// The events of a generation that was not streamed.
pub fn whole_stream(g: Generated) -> (out: Vec<StreamEvent>)
    ensures
        event_views(out@) == whole_events(g),
{
    let mut out: Vec<StreamEvent> = Vec::new();
    if !g.text.as_str().is_empty() {
        out.push(StreamEvent::Token(g.text.clone()));
    }
    out.push(
        StreamEvent::Done {
            prompt_tokens: g.prompt_tokens,
            completion_tokens: g.completion_tokens,
            text: g.text,
        },
    );
    assert(event_views(out@) =~= whole_events(g));
    out
}

/// Makes a stream of the outcome of a generation that was not streamed. An error is handed
/// on, and there is no stream.
pub fn generate_streaming(result: Result<Generated, AppError>) -> (r: Result<
    Vec<StreamEvent>,
    AppError,
>)
    ensures
        match (result, r) {
            (Ok(g), Ok(events)) => event_views(events@) == whole_events(g),
            (Err(e), Err(f)) => e == f,
            _ => false,
        },
{
    match result {
        Ok(g) => Ok(whole_stream(g)),
        Err(e) => Err(e),
    }
}

/// The texts of the tokens among events, joined.
pub open spec fn told(events: Seq<EventView>) -> Seq<char>
    decreases events.len(),
{
    if events.len() == 0 {
        Seq::empty()
    } else {
        match events.last() {
            EventView::Token(t) => told(events.drop_last()) + t,
            _ => told(events.drop_last()),
        }
    }
}

/// A stream of a whole generation ends once, at its end, and its tokens are the text that
/// it ends with.
pub proof fn law_whole_stream_tells_all(g: Generated)
    ensures
        whole_events(g).last() == done_event(g),
        forall|i: int|
            0 <= i < whole_events(g).len() - 1 ==> (#[trigger] whole_events(g)[i]) is Token,
        told(whole_events(g)) == g.text@,
{
    let events = whole_events(g);
    reveal_with_fuel(told, 3);
    if g.text@.len() > 0 {
        assert(events.drop_last() =~= seq![EventView::Token(g.text@)]);
        assert(events.drop_last().drop_last() =~= Seq::<EventView>::empty());
    } else {
        assert(events.drop_last() =~= Seq::<EventView>::empty());
    }
    assert(told(events) =~= g.text@);
}

/// The event that ends a stream: what was generated, or the message of the error.
pub fn last_event(result: Result<Generated, AppError>) -> (event: StreamEvent)
    ensures
        event@ == (match result {
            Ok(g) => done_event(g),
            Err(e) => EventView::Error(e@.message()),
        }),
{
    match result {
        Ok(g) => StreamEvent::Done {
            prompt_tokens: g.prompt_tokens,
            completion_tokens: g.completion_tokens,
            text: g.text,
        },
        Err(e) => StreamEvent::Error(e.message()),
    }
}

// ---------------------------------------------------------------------------
// Loading
// ---------------------------------------------------------------------------

/// How many layers are put on the GPU: `None` leaves it to the engine, which puts
/// all there; `0` is the CPU alone.
pub fn gpu_layer_count(gpu_layers: i32) -> (r: Option<u32>)
    ensures
        r == (if gpu_layers >= 0 {
            Some(gpu_layers as u32)
        } else {
            None
        }),
{
    if gpu_layers >= 0 {
        Some(gpu_layers as u32)
    } else {
        None
    }
}

/// The name that a loaded model goes by: the name of its file.
pub fn loaded_name(file_name: Option<String>) -> (out: String)
    ensures
        out@ == (match file_name {
            Some(s) => s@,
            None => "unknown"@,
        }),
{
    match file_name {
        Some(s) => s,
        None => "unknown".to_owned(),
    }
}

// ---------------------------------------------------------------------------
// The stub
// ---------------------------------------------------------------------------

/// A backend without a model, for tests. It echoes what the user said and counts
/// words as tokens.
#[derive(Debug, Clone)]
pub struct StubBackend {
    pub model_name: String,
    pub context_length: u32,
}

impl Default for StubBackend {
    fn default() -> (stub: Self)
        ensures
            stub.model_name@ == "stub"@,
            stub.context_length == 4096,
    {
        StubBackend { model_name: "stub".to_owned(), context_length: 4096 }
    }
}

/// What the user said last, or nothing.
pub open spec fn last_said(turns: Seq<ChatTurn>) -> Seq<char>
    decreases turns.len(),
{
    if turns.len() == 0 {
        Seq::empty()
    } else if turns.last().role == Role::User {
        turns.last().content@
    } else {
        last_said(turns.drop_last())
    }
}

/// How many words the turns have together.
pub open spec fn turn_words(turns: Seq<ChatTurn>) -> nat
    decreases turns.len(),
{
    if turns.len() == 0 {
        0
    } else {
        turn_words(turns.drop_last()) + text::words(turns.last().content@).len()
    }
}

/// What the stub answers.
pub open spec fn echo_text(turns: Seq<ChatTurn>) -> Seq<char> {
    "[stub] echo: "@ + last_said(turns)
}

impl StubBackend {
    pub fn model_name(&self) -> (r: &str)
        ensures
            r@ == self.model_name@,
    {
        self.model_name.as_str()
    }

    pub fn context_length(&self) -> (r: u32)
        ensures
            r == self.context_length,
    {
        self.context_length
    }

    /// The number of words, and one at least.
    pub fn count_tokens(&self, text: &str) -> (n: usize)
        ensures
            n == (if text::words(text@).len() > 0 {
                text::words(text@).len()
            } else {
                1
            }),
    {
        let words = split_words(text);
        assert(text::texts(words@).len() == words@.len());
        if words.len() > 0 {
            words.len()
        } else {
            1
        }
    }

    /// Echoes what the user said last. The words of the turns and of the answer have
    /// to be few enough to be counted.
    pub fn generate_with(&self, turns: &[ChatTurn]) -> (g: Generated)
        requires
            turn_words(turns@) <= u32::MAX,
            text::words(echo_text(turns@)).len() <= u32::MAX,
        ensures
            g.text@ == echo_text(turns@),
            g.prompt_tokens == turn_words(turns@),
            g.completion_tokens == text::words(echo_text(turns@)).len(),
    {
        let mut answer = "[stub] echo: ".to_owned();
        let mut i: usize = turns.len();
        assert(turns@.take(i as int) =~= turns@);
        while i > 0 && turns[i - 1].role != Role::User
            invariant
                i <= turns.len(),
                last_said(turns@) == last_said(turns@.take(i as int)),
            decreases i,
        {
            assert(turns@.take(i as int).drop_last() =~= turns@.take(i - 1));
            i = i - 1;
        }
        if i > 0 {
            assert(turns@.take(i as int).last() == turns@[i - 1]);
            answer.append(turns[i - 1].content.as_str());
        } else {
            assert(answer@ =~= echo_text(turns@));
        }
        let mut prompt_tokens: u32 = 0;
        let mut k: usize = 0;
        assert(turns@.take(0) =~= Seq::<ChatTurn>::empty());
        while k < turns.len()
            invariant
                k <= turns.len(),
                prompt_tokens == turn_words(turns@.take(k as int)),
                turn_words(turns@) <= u32::MAX,
            decreases turns.len() - k,
        {
            let words = split_words(turns[k].content.as_str());
            proof {
                assert(text::texts(words@).len() == words@.len());
                assert(turns@.take(k + 1).drop_last() =~= turns@.take(k as int));
                lemma_turn_words(turns@, k + 1);
            }
            prompt_tokens = prompt_tokens + words.len() as u32;
            k = k + 1;
        }
        assert(turns@.take(turns@.len() as int) =~= turns@);
        let words = split_words(answer.as_str());
        assert(text::texts(words@).len() == words@.len());
        Generated { text: answer, prompt_tokens, completion_tokens: words.len() as u32 }
    }
}

/// The first turns have no more words than all.
proof fn lemma_turn_words(turns: Seq<ChatTurn>, n: int)
    requires
        0 <= n <= turns.len(),
    ensures
        turn_words(turns.take(n)) <= turn_words(turns),
    decreases turns.len(),
{
    if n < turns.len() {
        lemma_turn_words(turns.drop_last(), n);
        assert(turns.drop_last().take(n) =~= turns.take(n));
    } else {
        assert(turns.take(n) =~= turns);
    }
}

// ---------------------------------------------------------------------------
// Laws
// ---------------------------------------------------------------------------

/// The batches follow each other without gap or overlap and cover the prompt; none
/// is empty and none is larger than allowed.
pub proof fn law_batches_cover_prompt(from: int, n: int, size: int)
    requires
        0 <= from <= n,
        size > 0,
    ensures
        ({
            let b = batches(from, n, size);
            &&& from < n ==> b.len() > 0 && b[0].0 == from && b.last().1 == n
            &&& forall|k: int|
                0 <= k < b.len() ==> (#[trigger] b[k]).0 < b[k].1 <= n && b[k].1 - b[k].0 <= size
            &&& forall|k: int| 0 <= k < b.len() - 1 ==> b[k].1 == (#[trigger] b[k + 1]).0
        }),
    decreases n - from,
{
    if from < n {
        let next = smaller(from + size, n);
        law_batches_cover_prompt(next, n, size);
        let rest = batches(next, n, size);
        let b = batches(from, n, size);
        assert(b =~= seq![(from, next)] + rest);
        assert forall|k: int| 0 <= k < b.len() implies (#[trigger] b[k]).0 < b[k].1 <= n && b[k].1
            - b[k].0 <= size by {
            if k > 0 {
                assert(b[k] == rest[k - 1]);
            }
        }
        assert forall|k: int| 0 <= k < b.len() - 1 implies b[k].1 == (#[trigger] b[k + 1]).0 by {
            assert(b[k + 1] == rest[k]);
            if k > 0 {
                assert(b[k] == rest[k - 1]);
                assert(rest[k - 1].1 == rest[(k - 1) + 1].0);
            }
        }
        if rest.len() > 0 {
            assert(b.last() == rest.last());
        }
    }
}

/// A generation after the samples that it takes from a list. Samples that it does
/// not ask for any more are left.
pub open spec fn run(g: GenerationView, samples: Seq<SampleView>) -> GenerationView
    decreases samples.len(),
{
    if samples.len() == 0 || !g.wants_token() {
        g
    } else {
        run(g.advance(samples.first()), samples.drop_first())
    }
}

/// The texts that are sent on while a generation takes the samples of a list.
pub open spec fn sent(g: GenerationView, samples: Seq<SampleView>) -> Seq<Seq<char>>
    decreases samples.len(),
{
    if samples.len() == 0 || !g.wants_token() {
        Seq::empty()
    } else {
        let rest = sent(g.advance(samples.first()), samples.drop_first());
        match samples.first() {
            SampleView::Token(piece) => if piece.len() > 0 {
                seq![piece] + rest
            } else {
                rest
            },
            SampleView::Eos => rest,
        }
    }
}

/// Texts one after the other.
pub open spec fn concatenated(parts: Seq<Seq<char>>) -> Seq<char>
    decreases parts.len(),
{
    if parts.len() == 0 {
        Seq::empty()
    } else {
        parts.first() + concatenated(parts.drop_first())
    }
}

/// The last text comes at the end.
pub proof fn lemma_concatenated_last(parts: Seq<Seq<char>>)
    requires
        parts.len() > 0,
    ensures
        concatenated(parts) == concatenated(parts.drop_last()) + parts.last(),
    decreases parts.len(),
{
    if parts.len() == 1 {
        assert(parts.drop_first() =~= Seq::<Seq<char>>::empty());
        assert(parts.drop_last() =~= Seq::<Seq<char>>::empty());
        assert(concatenated(parts) =~= concatenated(parts.drop_last()) + parts.last());
    } else {
        lemma_concatenated_last(parts.drop_first());
        assert(parts.drop_first().drop_last() =~= parts.drop_last().drop_first());
        assert(concatenated(parts) =~= concatenated(parts.drop_last()) + parts.last());
    }
}

/// The text of a generation is all that was sent on, one piece after the other.
pub proof fn law_text_is_what_was_sent(g: GenerationView, samples: Seq<SampleView>)
    ensures
        run(g, samples).text == g.text + concatenated(sent(g, samples)),
    decreases samples.len(),
{
    if samples.len() == 0 || !g.wants_token() {
        assert(g.text + concatenated(sent(g, samples)) =~= g.text);
    } else {
        let next = g.advance(samples.first());
        law_text_is_what_was_sent(next, samples.drop_first());
        let rest = sent(next, samples.drop_first());
        match samples.first() {
            SampleView::Token(piece) => {
                if piece.len() > 0 {
                    assert((seq![piece] + rest).drop_first() =~= rest);
                    assert(g.text + (piece + concatenated(rest)) =~= (g.text + piece)
                        + concatenated(rest));
                } else {
                    assert(g.text + piece =~= g.text);
                }
            },
            SampleView::Eos => {},
        }
    }
}

/// No more tokens are generated than were asked for, and the prompt and the reply
/// together stay within the context window.
pub proof fn law_limits_respected(
    n_prompt: u32,
    context_length: u32,
    max_tokens: u32,
    stops: Seq<Seq<char>>,
    samples: Seq<SampleView>,
)
    requires
        n_prompt < context_length,
    ensures
        ({
            let end = run(generation_start(n_prompt, context_length, max_tokens, stops), samples);
            &&& 0 <= end.completion <= max_tokens
            &&& n_prompt + end.completion <= context_length
        }),
{
    let start = generation_start(n_prompt, context_length, max_tokens, stops);
    if start.pos < start.max_pos {
        let shift = n_prompt - start.pos;
        lemma_limits(
            GenerationView { n_prompt: start.n_prompt - shift, ..start },
            samples,
        );
        lemma_prompt_aside(start, start.n_prompt - shift, samples);
    }
}

/// The number of prompt tokens is carried along and changes nothing.
proof fn lemma_prompt_aside(g: GenerationView, n_prompt: int, samples: Seq<SampleView>)
    ensures
        run(GenerationView { n_prompt, ..g }, samples) == (GenerationView {
            n_prompt,
            ..run(g, samples)
        }),
    decreases samples.len(),
{
    if samples.len() > 0 && g.wants_token() {
        lemma_prompt_aside(g.advance(samples.first()), n_prompt, samples.drop_first());
    }
}

proof fn lemma_limits(g: GenerationView, samples: Seq<SampleView>)
    requires
        0 <= g.completion <= g.max_tokens,
        g.pos <= g.max_pos,
        !g.finished ==> g.n_prompt + g.completion == g.pos,
        g.n_prompt + g.completion <= g.max_pos,
    ensures
        0 <= run(g, samples).completion <= g.max_tokens,
        g.n_prompt + run(g, samples).completion <= g.max_pos,
    decreases samples.len(),
{
    if samples.len() > 0 && g.wants_token() {
        lemma_limits(g.advance(samples.first()), samples.drop_first());
    }
}

/// A generation ends with the first token that completes a stop sequence: as long
/// as it asks for tokens no stop sequence has appeared, and once one has appeared
/// in what was generated it is over.
pub proof fn law_stops_at_first_stop_sequence(g: GenerationView, samples: Seq<SampleView>)
    requires
        g.wf(),
        g.completion == 0,
        g.text.len() == 0,
        !g.finished,
    ensures
        ({
            let end = run(g, samples);
            &&& !end.finished ==> forall|k: int|
                0 <= k < g.stops.len() && (#[trigger] g.stops[k]).len() > 0 ==> !text::has_text(
                    end.text,
                    g.stops[k],
                )
            &&& end.completion > 0 && stop_seen(g.stops, end.text) ==> end.finished
        }),
{
    lemma_stops(g, samples);
}

proof fn lemma_stops(g: GenerationView, samples: Seq<SampleView>)
    requires
        g.wf(),
        g.completion > 0 && stop_seen(g.stops, g.text) ==> g.finished,
        g.completion >= 0,
    ensures
        run(g, samples).stops == g.stops,
        !run(g, samples).finished ==> forall|k: int|
            0 <= k < g.stops.len() && (#[trigger] g.stops[k]).len() > 0 ==> !text::has_text(
                run(g, samples).text,
                g.stops[k],
            ),
        run(g, samples).completion > 0 && stop_seen(g.stops, run(g, samples).text) ==> run(
            g,
            samples,
        ).finished,
    decreases samples.len(),
{
    if samples.len() > 0 && g.wants_token() {
        let next = g.advance(samples.first());
        assert(next.wf()) by {
            if !next.finished {
                assert forall|k: int|
                    0 <= k < next.stops.len() && (
                    #[trigger] next.stops[k]).len() > 0 implies !text::has_text(
                    next.text,
                    next.stops[k],
                ) by {}
            }
        }
        lemma_stops(next, samples.drop_first());
    }
}

// ---------------------------------------------------------------------------
// What a generation says
// ---------------------------------------------------------------------------

/// The text of the first `m` samples, one after the other.
pub open spec fn said_by(samples: Seq<SampleView>, m: int) -> Seq<char>
    decreases m,
{
    if m <= 0 {
        Seq::empty()
    } else {
        said_by(samples, m - 1) + samples[m - 1]->Token_0
    }
}

/// The text `s` stands in `t` at position `i`.
pub open spec fn stands_at(t: Seq<char>, s: Seq<char>, i: int) -> bool {
    0 <= i && i + s.len() <= t.len() && t.subrange(i, i + s.len()) == s
}

/// One of the texts stands somewhere in `t`.
pub open spec fn says_one(t: Seq<char>, stops: Seq<Seq<char>>) -> bool {
    exists|k: int, i: int| 0 <= k < stops.len() && #[trigger] stands_at(t, stops[k], i)
}

/// A generation takes exactly the first `m` samples: all of them are tokens, no stop
/// sequence was complete before the last of them, `m` is within both limits, and what
/// ends the generation there is a limit, a stop sequence, the token that ends the text, or
/// that there are no more samples.
pub open spec fn takes(
    room: int,
    max_tokens: int,
    stops: Seq<Seq<char>>,
    samples: Seq<SampleView>,
    m: int,
) -> bool {
    &&& 0 <= m <= samples.len()
    &&& m <= max_tokens
    &&& m <= room
    &&& forall|k: int| 0 <= k < m ==> (#[trigger] samples[k]) is Token
    &&& forall|k: int| 0 < k < m ==> !says_one(#[trigger] said_by(samples, k), stops)
    &&& {
        ||| m == max_tokens
        ||| m == room
        ||| m == samples.len()
        ||| samples[m] is Eos
        ||| m > 0 && says_one(said_by(samples, m), stops)
    }
}

/// What a generation comes to, going by the samples alone: it takes tokens up to the first
/// that completes a stop sequence, and no further than the token that ends the text, the
/// token limit and the context window allow. Its text is that of the tokens it took, its
/// number of tokens is theirs, and the tokens of the prompt are those that were fed.
pub proof fn law_generation_says_its_tokens(
    n_prompt: u32,
    context_length: u32,
    max_tokens: u32,
    stops: Seq<Seq<char>>,
    samples: Seq<SampleView>,
)
    requires
        n_prompt < context_length <= i32::MAX,
    ensures
        ({
            let end = run(generation_start(n_prompt, context_length, max_tokens, stops), samples);
            &&& takes(
                context_length - n_prompt,
                max_tokens as int,
                stops,
                samples,
                end.completion,
            )
            &&& end.text == said_by(samples, end.completion)
            &&& end.n_prompt == n_prompt
        }),
{
    let start = generation_start(n_prompt, context_length, max_tokens, stops);
    assert(samples.skip(0) =~= samples);
    lemma_takes(start, context_length - n_prompt, samples);
}

/// What is taken in follows from the first sample on.
proof fn lemma_takes(g: GenerationView, room: int, samples: Seq<SampleView>)
    requires
        0 <= g.completion <= samples.len(),
        g.completion <= g.max_tokens,
        g.completion <= room,
        g.text == said_by(samples, g.completion),
        forall|k: int| 0 <= k < g.completion ==> (#[trigger] samples[k]) is Token,
        forall|k: int| 0 < k < g.completion ==> !says_one(#[trigger] said_by(samples, k), g.stops),
        !g.finished ==> g.max_pos - g.pos == room - g.completion,
        !g.finished && g.completion > 0 ==> !says_one(g.text, g.stops),
        g.finished ==> (g.completion < samples.len() && samples[g.completion] is Eos)
            || g.completion > 0 && says_one(g.text, g.stops),
    ensures
        ({
            let end = run(g, samples.skip(g.completion));
            &&& takes(room, g.max_tokens, g.stops, samples, end.completion)
            &&& end.text == said_by(samples, end.completion)
            &&& end.n_prompt == g.n_prompt
        }),
    decreases samples.len() - g.completion,
{
    let rest = samples.skip(g.completion);
    if rest.len() > 0 && g.wants_token() {
        assert(rest.first() == samples[g.completion]);
        let next = g.advance(rest.first());
        match rest.first() {
            SampleView::Eos => {
                assert(run(next, rest.drop_first()) == next);
            },
            SampleView::Token(piece) => {
                assert(rest.drop_first() =~= samples.skip(g.completion + 1));
                lemma_stop_seen(g.stops, next.text);
                lemma_takes(next, room, samples);
            },
        }
    }
}

/// A stop sequence is seen where it stands in the text.
proof fn lemma_stop_seen(stops: Seq<Seq<char>>, t: Seq<char>)
    ensures
        stop_seen(stops, t) <==> says_one(t, stops),
{
    if stop_seen(stops, t) {
        let k = choose|k: int| 0 <= k < stops.len() && text::has_text(t, #[trigger] stops[k]);
        let i = choose|i: int| text::occurs_at(t, stops[k], i);
        assert(stands_at(t, stops[k], i));
    }
    if says_one(t, stops) {
        let (k, i) = choose|k: int, i: int|
            0 <= k < stops.len() && #[trigger] stands_at(t, stops[k], i);
        assert(text::occurs_at(t, stops[k], i));
        assert(text::has_text(t, stops[k]));
    }
}

/// While a generation runs, each token that adds text is sent on as it is taken, and
/// nothing else is.
pub proof fn law_each_piece_is_sent(
    g: GenerationView,
    samples: Seq<SampleView>,
    sample: SampleView,
)
    ensures
        sent(g, Seq::empty()) == Seq::<Seq<char>>::empty(),
        sent(g, samples.push(sample)) == (if run(g, samples).wants_token() && (
        sample matches SampleView::Token(piece) && piece.len() > 0) {
            sent(g, samples).push(sample->Token_0)
        } else {
            sent(g, samples)
        }),
    decreases samples.len(),
{
    reveal_with_fuel(sent, 2);
    let all = samples.push(sample);
    if samples.len() == 0 {
        assert(all.drop_first() =~= Seq::<SampleView>::empty());
        assert(all.first() == sample);
        assert(sent(g, samples) =~= Seq::<Seq<char>>::empty());
        if g.wants_token() {
            assert(sent(g.advance(sample), all.drop_first()) =~= Seq::<Seq<char>>::empty());
            if sample is Token && sample->Token_0.len() > 0 {
                assert(sent(g, all) =~= seq![sample->Token_0]);
                assert(sent(g, samples).push(sample->Token_0) =~= seq![sample->Token_0]);
            }
        }
    } else if g.wants_token() {
        let next = g.advance(samples.first());
        assert(all.drop_first() =~= samples.drop_first().push(sample));
        assert(all.first() == samples.first());
        law_each_piece_is_sent(next, samples.drop_first(), sample);
        let before = sent(next, samples.drop_first());
        if samples.first() is Token && samples.first()->Token_0.len() > 0 {
            assert(seq![samples.first()->Token_0] + before.push(sample->Token_0) =~= (
            seq![samples.first()->Token_0] + before).push(sample->Token_0));
        }
    }
}

/// The stub echoes what the user said last: an answer to turns is its lead and the
/// content of the turn of the user behind which no other comes.
pub proof fn law_stub_echoes_the_user(turns: Seq<ChatTurn>, i: int)
    requires
        0 <= i < turns.len(),
        turns[i].role == Role::User,
        forall|k: int| i < k < turns.len() ==> (#[trigger] turns[k]).role != Role::User,
    ensures
        echo_text(turns) == "[stub] echo: "@ + turns[i].content@,
    decreases turns.len(),
{
    if i < turns.len() - 1 {
        assert(turns.last() == turns[turns.len() - 1]);
        law_stub_echoes_the_user(turns.drop_last(), i);
    }
}

/// Without a turn of the user the stub says its lead alone.
pub proof fn law_stub_without_a_user(turns: Seq<ChatTurn>)
    requires
        forall|k: int| 0 <= k < turns.len() ==> (#[trigger] turns[k]).role != Role::User,
    ensures
        echo_text(turns) == "[stub] echo: "@,
    decreases turns.len(),
{
    if turns.len() > 0 {
        assert(turns.last() == turns[turns.len() - 1]);
        law_stub_without_a_user(turns.drop_last());
    } else {
        assert(echo_text(turns) =~= "[stub] echo: "@);
    }
}

/// Each turn adds its words to the tokens that the stub counts, whoever speaks.
pub proof fn law_stub_counts_each_turn(turns: Seq<ChatTurn>, turn: ChatTurn)
    ensures
        turn_words(Seq::empty()) == 0,
        turn_words(turns.push(turn)) == turn_words(turns) + text::words(turn.content@).len(),
{
    assert(turns.push(turn).drop_last() =~= turns);
}

/// A prompt is fed in as few batches as can be: every batch but the last is full.
pub proof fn law_batches_are_full(from: int, n: int, size: int, k: int)
    requires
        0 <= from <= n,
        size > 0,
        0 <= k < batches(from, n, size).len() - 1,
    ensures
        batches(from, n, size)[k].1 - batches(from, n, size)[k].0 == size,
    decreases n - from,
{
    let next = smaller(from + size, n);
    let rest = batches(next, n, size);
    assert(batches(from, n, size) =~= seq![(from, next)] + rest);
    if k > 0 {
        law_batches_are_full(next, n, size, k - 1);
        assert(batches(from, n, size)[k] == rest[k - 1]);
    } else {
        assert(rest.len() > 0);
        assert(next < n);
    }
}

/// A stream ends with the text and the numbers of tokens that were generated, each in its
/// place; a generation that was not streamed comes as one token, or as none where it has no
/// text.
pub proof fn law_stream_ends_with_what_was_generated(g: Generated)
    ensures
        done_event(g) matches EventView::Done { prompt_tokens, completion_tokens, text }
            && prompt_tokens == g.prompt_tokens && completion_tokens == g.completion_tokens && text
            == g.text@,
        g.text@.len() > 0 ==> whole_events(g).len() == 2 && whole_events(g)[0] == EventView::Token(
            g.text@,
        ),
        g.text@.len() == 0 ==> whole_events(g).len() == 1,
{
}

} // verus!
