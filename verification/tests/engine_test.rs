use co_worker_lite::error::AppError;
use co_worker_lite::model::engine::{
    generate_streaming, gpu_layer_count, last_event, loaded_name, plan_prompt, signed_position,
    whole_stream, ChatTurn, GenerateOpts, Generated, Generation, PromptPlan, Sample, StreamEvent, StubBackend,
};
use co_worker_lite::types::Role;

fn piece(s: &str) -> Sample {
    Sample::Token(Some(s.to_string()))
}

fn stops(list: &[&str]) -> GenerateOpts {
    GenerateOpts { stop_sequences: list.iter().map(|s| s.to_string()).collect() }
}

/// Runs a generation on a list of samples; returns what was sent and the result.
fn drive(
    n_prompt: u32,
    context_length: u32,
    max_tokens: u32,
    opts: &GenerateOpts,
    samples: Vec<Sample>,
) -> (Vec<String>, Vec<i32>, Generated) {
    let plan = plan_prompt(n_prompt, context_length).unwrap();
    let mut g = Generation::start(&plan, max_tokens, opts);
    let mut sent = Vec::new();
    let mut fed = Vec::new();
    for s in samples {
        if !g.wants_token() {
            break;
        }
        let step = g.step(s);
        if let Some(t) = step.emit {
            sent.push(t);
        }
        if let Some(p) = step.feed {
            fed.push(p);
        }
    }
    (sent, fed, g.finish())
}

#[test]
fn a_prompt_that_fills_the_window_is_refused() {
    match plan_prompt(8192, 8192) {
        Err(AppError::BadRequest(m)) => {
            assert_eq!(m, "prompt of 8192 tokens exceeds context length 8192")
        }
        other => panic!("{other:?}"),
    }
    assert!(plan_prompt(0, 0).is_err());
    assert_eq!(
        plan_prompt(8191, 8192).unwrap(),
        PromptPlan { n_prompt: 8191, n_ctx: 8192, n_batch: 8192 }
    );
    assert_eq!(plan_prompt(5, 32768).unwrap().n_batch, 10000);
}

#[test]
fn a_prompt_is_fed_in_batches() {
    let plan = plan_prompt(25000, 32768).unwrap();
    assert_eq!(plan.chunks(), vec![(0, 10000), (10000, 20000), (20000, 25000)]);
    let plan = PromptPlan { n_prompt: 10, n_ctx: 64, n_batch: 5 };
    assert_eq!(plan.chunks(), vec![(0, 5), (5, 10)]);
    assert!(PromptPlan { n_prompt: 0, n_ctx: 64, n_batch: 5 }.chunks().is_empty());
    assert!(plan.wants_logits(9));
    assert!(!plan.wants_logits(8));
    assert!(!PromptPlan { n_prompt: 0, n_ctx: 64, n_batch: 5 }.wants_logits(0));
}

#[test]
fn positions_wrap_like_machine_words() {
    assert_eq!(signed_position(7), 7);
    assert_eq!(signed_position(0x7fff_ffff), i32::MAX);
    assert_eq!(signed_position(0x8000_0000), i32::MIN);
    assert_eq!(signed_position(u32::MAX), -1);
}

#[test]
fn generation_ends_with_the_text() {
    let (sent, fed, g) = drive(
        3,
        100,
        50,
        &GenerateOpts::default(),
        vec![piece("Hel"), piece("lo"), Sample::Eos, piece("never")],
    );
    assert_eq!(sent, vec!["Hel", "lo"]);
    assert_eq!(fed, vec![3, 4]);
    assert_eq!(g.text, "Hello");
    assert_eq!((g.prompt_tokens, g.completion_tokens), (3, 2));
}

#[test]
fn generation_respects_its_limits() {
    let many = || vec![piece("x"); 20];
    let (_, _, g) = drive(3, 100, 5, &GenerateOpts::default(), many());
    assert_eq!((g.text.as_str(), g.completion_tokens), ("xxxxx", 5));
    let (_, fed, g) = drive(7, 10, 50, &GenerateOpts::default(), many());
    assert_eq!(g.completion_tokens, 3);
    assert_eq!(fed, vec![7, 8, 9]);
    let (sent, _, g) = drive(3, 100, 0, &GenerateOpts::default(), many());
    assert!(sent.is_empty());
    assert_eq!(g.completion_tokens, 0);
}

#[test]
fn generation_stops_at_a_stop_sequence() {
    let (sent, fed, g) = drive(
        1,
        100,
        50,
        &stops(&["</tool_call>", "END"]),
        vec![piece("a</tool"), piece("_call"), piece(">tail"), piece("more")],
    );
    assert_eq!(sent, vec!["a</tool", "_call", ">tail"]);
    assert_eq!(fed, vec![1, 2]);
    assert_eq!(g.text, "a</tool_call>tail");
    assert_eq!(g.completion_tokens, 3);
}

#[test]
fn long_pieces_and_long_stop_sequences_are_seen() {
    let stop = "s".repeat(200);
    let (_, _, g) = drive(1, 1000, 50, &stops(&[&stop]), vec![piece("s"); 300]);
    assert_eq!(g.completion_tokens, 50);
    let (_, _, g) = drive(1, 1000, 250, &stops(&[&stop]), vec![piece("s"); 300]);
    assert_eq!(g.completion_tokens, 200);
    let long = format!("STOP{}", "\u{e9}".repeat(500));
    let (_, fed, g) = drive(1, 1000, 50, &stops(&["STOP"]), vec![piece(&long), piece("x")]);
    assert_eq!(g.completion_tokens, 1);
    assert!(fed.is_empty());
}

#[test]
fn tokens_without_text_count() {
    let (sent, _, g) = drive(
        1,
        100,
        3,
        &GenerateOpts::default(),
        vec![Sample::Token(None), piece(""), piece("x"), piece("y")],
    );
    assert_eq!(sent, vec!["x"]);
    assert_eq!((g.text.as_str(), g.completion_tokens), ("x", 3));
}

#[test]
fn an_empty_stop_sequence_ends_at_once() {
    let (_, _, g) = drive(1, 100, 50, &stops(&[""]), vec![piece("a"), piece("b")]);
    assert_eq!(g.text, "a");
}

#[test]
fn a_whole_answer_streams_as_one_token() {
    let g = Generated { text: "hi".to_string(), prompt_tokens: 4, completion_tokens: 2 };
    let events = whole_stream(g);
    assert_eq!(events.len(), 2);
    assert!(matches!(&events[0], StreamEvent::Token(t) if t == "hi"));
    assert!(matches!(
        &events[1],
        StreamEvent::Done { prompt_tokens: 4, completion_tokens: 2, text } if text == "hi"
    ));
    let g = Generated { text: String::new(), prompt_tokens: 4, completion_tokens: 0 };
    assert_eq!(whole_stream(g).len(), 1);
}

#[test]
fn a_failed_generation_is_handed_on_without_a_stream() {
    match generate_streaming(Err(AppError::Inference("boom".to_string()))) {
        Err(AppError::Inference(m)) => assert_eq!(m, "boom"),
        other => panic!("{other:?}"),
    }
    let g = Generated { text: "hi".to_string(), prompt_tokens: 4, completion_tokens: 2 };
    let events = generate_streaming(Ok(g)).unwrap();
    assert_eq!(events.len(), 2);
    assert!(matches!(&events[0], StreamEvent::Token(t) if t == "hi"));
    assert!(matches!(&events[1], StreamEvent::Done { text, .. } if text == "hi"));
}

#[test]
fn a_stream_ends_in_its_result() {
    let g = Generated { text: "t".to_string(), prompt_tokens: 1, completion_tokens: 1 };
    assert!(matches!(last_event(Ok(g)), StreamEvent::Done { .. }));
    match last_event(Err(AppError::Inference("boom".to_string()))) {
        StreamEvent::Error(m) => assert_eq!(m, "inference error: boom"),
        other => panic!("{other:?}"),
    }
}

#[test]
fn loading_reads_its_settings() {
    assert_eq!(gpu_layer_count(-1), None);
    assert_eq!(gpu_layer_count(0), Some(0));
    assert_eq!(gpu_layer_count(33), Some(33));
    assert_eq!(loaded_name(Some("m.gguf".to_string())), "m.gguf");
    assert_eq!(loaded_name(None), "unknown");
}

#[test]
fn the_stub_echoes_and_counts_words() {
    let stub = StubBackend::default();
    assert_eq!(stub.model_name(), "stub");
    assert_eq!(stub.context_length(), 4096);
    assert_eq!(stub.count_tokens("one  two\tthree"), 3);
    assert_eq!(stub.count_tokens(""), 1);
    let turn = |role, content: &str| ChatTurn { role, content: content.to_string() };
    let g = stub.generate_with(&[
        turn(Role::System, "be kind"),
        turn(Role::User, "first"),
        turn(Role::User, "hello there"),
        turn(Role::Assistant, "ok"),
    ]);
    assert_eq!(g.text, "[stub] echo: hello there");
    assert_eq!((g.prompt_tokens, g.completion_tokens), (6, 4));
    assert_eq!(stub.generate_with(&[]).text, "[stub] echo: ");
}
