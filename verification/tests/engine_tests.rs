use aura_nexus::engine::{
    BatchEntry, EngineAction, EngineEvent, LlmManager, Phase, DEFAULT_CONTEXT_WINDOW,
    DEFAULT_MAX_TOKENS,
};
use aura_nexus::error::ErrorKind;

/// A model runtime that answers from a script.
struct Stub {
    context_ok: bool,
    tokenizer_ok: bool,
    /// The tokens that follow the prompt, each with its text; a token of -1
    /// ends generation.
    script: Vec<(i32, Option<&'static str>)>,
    /// What follows once the script is over.
    after: (i32, Option<&'static str>),
    /// The call of `decode` that fails, counted from 0.
    failing_decode: Option<usize>,
    batches: Vec<Vec<BatchEntry>>,
    sampled: usize,
}

impl Stub {
    fn new(script: Vec<(i32, Option<&'static str>)>) -> Stub {
        Stub {
            context_ok: true,
            tokenizer_ok: true,
            script,
            after: (-1, None),
            failing_decode: None,
            batches: Vec::new(),
            sampled: 0,
        }
    }

    fn tokenize(&self, prompt: &str) -> Vec<i32> {
        if prompt.is_empty() {
            return Vec::new();
        }
        let mut tokens = vec![1];
        for byte in prompt.bytes() {
            tokens.push(100 + byte as i32);
        }
        tokens
    }

    fn entry(&self, at: usize) -> (i32, Option<&'static str>) {
        if at < self.script.len() {
            self.script[at]
        } else {
            self.after
        }
    }

    fn answer(&mut self, action: EngineAction) -> EngineEvent {
        match action {
            EngineAction::CreateContext { .. } => {
                if self.context_ok {
                    EngineEvent::ContextCreated
                } else {
                    EngineEvent::ContextFailed
                }
            }
            EngineAction::Tokenize { prompt } => {
                if self.tokenizer_ok {
                    EngineEvent::Tokenized { tokens: self.tokenize(&prompt) }
                } else {
                    EngineEvent::TokenizeFailed
                }
            }
            EngineAction::Decode { batch } => {
                let call = self.batches.len();
                self.batches.push(batch);
                if self.failing_decode == Some(call) {
                    EngineEvent::DecodeFailed
                } else {
                    EngineEvent::Decoded
                }
            }
            EngineAction::Sample => {
                let (token, _) = self.entry(self.sampled);
                EngineEvent::Sampled { token, end_of_generation: token == -1 }
            }
            EngineAction::Detokenize { token } => {
                let (expected, piece) = self.entry(self.sampled);
                assert_eq!(token, expected);
                self.sampled += 1;
                EngineEvent::Detokenized { piece: piece.map(|text| text.to_string()) }
            }
            EngineAction::Finish { .. } => unreachable!(),
        }
    }
}

fn run(engine: &LlmManager, prompt: &str, stub: &mut Stub) -> (Result<String, ErrorKind>, usize) {
    let (mut generation, mut action) = engine.generate(prompt);
    let mut events = 0;
    loop {
        if let EngineAction::Finish { result } = action {
            assert!(generation.is_done());
            return (result, events);
        }
        let event = stub.answer(action);
        assert!(generation.accepts(&event));
        action = generation.step(event);
        events += 1;
    }
}

fn engine(max_tokens: usize) -> LlmManager {
    LlmManager::new(true, 4096, max_tokens).unwrap()
}

#[test]
fn single_token_scenario() {
    let mut stub = Stub::new(vec![(7, Some("4"))]);
    stub.after = (8, Some("!"));
    let (result, _) = run(&engine(1), "2+2=", &mut stub);
    assert_eq!(result, Ok("4".to_string()));
}

#[test]
fn empty_prompt_is_refused() {
    let mut stub = Stub::new(vec![(7, Some("4"))]);
    let (result, events) = run(&engine(8), "", &mut stub);
    assert_eq!(result, Err(ErrorKind::EmptyPrompt));
    assert_eq!(events, 2);
    assert!(stub.batches.is_empty());
}

#[test]
fn context_failure_is_reported() {
    let mut stub = Stub::new(vec![]);
    stub.context_ok = false;
    let (result, events) = run(&engine(8), "hello", &mut stub);
    assert_eq!(result, Err(ErrorKind::ContextInit));
    assert_eq!(events, 1);
}

#[test]
fn tokenizer_failure_is_reported() {
    let mut stub = Stub::new(vec![]);
    stub.tokenizer_ok = false;
    let (result, _) = run(&engine(8), "hello", &mut stub);
    assert_eq!(result, Err(ErrorKind::Tokenize));
}

#[test]
fn prefill_failure_is_a_decode_error() {
    let mut stub = Stub::new(vec![(7, Some("4"))]);
    stub.failing_decode = Some(0);
    let (result, _) = run(&engine(8), "hello", &mut stub);
    assert_eq!(result, Err(ErrorKind::Decode));
}

#[test]
fn decode_failure_returns_no_partial_text() {
    let mut stub = Stub::new(vec![(7, Some("a")), (8, Some("b")), (9, Some("c"))]);
    stub.failing_decode = Some(2);
    let (result, _) = run(&engine(8), "hello", &mut stub);
    assert_eq!(result, Err(ErrorKind::Decode));
}

#[test]
fn failure_of_the_last_pass_still_fails_the_call() {
    let mut stub = Stub::new(vec![(7, Some("a"))]);
    stub.failing_decode = Some(1);
    let (result, _) = run(&engine(1), "hello", &mut stub);
    assert_eq!(result, Err(ErrorKind::Decode));
}

#[test]
fn end_of_generation_stops_the_loop() {
    let mut stub = Stub::new(vec![(7, Some("Hel")), (8, Some("lo"))]);
    let (result, events) = run(&engine(512), "hi", &mut stub);
    assert_eq!(result, Ok("Hello".to_string()));
    // context, tokens, prefill, two rounds of three, the sample that ends it
    assert_eq!(events, 3 + 2 * 3 + 1);
    assert_eq!(stub.batches.len(), 3);
}

#[test]
fn budget_is_spent_to_the_last_token() {
    let mut stub = Stub::new(vec![]);
    stub.after = (5, Some("ab"));
    let (result, events) = run(&engine(6), "go", &mut stub);
    assert_eq!(result, Ok("abababababab".to_string()));
    assert_eq!(stub.sampled, 6);
    assert_eq!(events, 3 + 3 * 6);
    assert_eq!(stub.batches.len(), 1 + 6);
}

#[test]
fn default_budget_is_512_tokens() {
    assert_eq!(DEFAULT_MAX_TOKENS, 512);
    assert_eq!(DEFAULT_CONTEXT_WINDOW, 4096);
    let engine = LlmManager::new(true, DEFAULT_CONTEXT_WINDOW, DEFAULT_MAX_TOKENS).unwrap();
    let mut stub = Stub::new(vec![]);
    stub.after = (5, Some("x"));
    let (result, _) = run(&engine, "go", &mut stub);
    assert_eq!(result.unwrap().len(), 512);
    assert_eq!(stub.sampled, 512);
}

#[test]
fn zero_budget_generates_nothing() {
    let mut stub = Stub::new(vec![(7, Some("4"))]);
    let (result, events) = run(&engine(0), "hello", &mut stub);
    assert_eq!(result, Ok(String::new()));
    assert_eq!(events, 3);
    assert_eq!(stub.sampled, 0);
}

#[test]
fn token_without_text_is_skipped() {
    let mut stub = Stub::new(vec![(7, Some("a")), (8, None), (9, Some("c"))]);
    let (result, _) = run(&engine(16), "hello", &mut stub);
    assert_eq!(result, Ok("ac".to_string()));
    assert_eq!(stub.batches.len(), 4);
}

#[test]
fn output_is_trimmed() {
    let mut stub = Stub::new(vec![(7, Some("  \n four")), (8, Some(" \t")), (9, Some("\u{a0}"))]);
    let (result, _) = run(&engine(16), "2+2=", &mut stub);
    assert_eq!(result, Ok("four".to_string()));
}

#[test]
fn output_of_white_space_alone_is_empty() {
    let mut stub = Stub::new(vec![(7, Some(" ")), (8, Some("\n"))]);
    let (result, _) = run(&engine(16), "2+2=", &mut stub);
    assert_eq!(result, Ok(String::new()));
}

#[test]
fn prompt_goes_through_in_one_batch() {
    let mut stub = Stub::new(vec![(7, Some("a")), (8, Some("b"))]);
    let _ = run(&engine(16), "abc", &mut stub);
    let prefill = &stub.batches[0];
    assert_eq!(prefill.len(), 4);
    for (i, entry) in prefill.iter().enumerate() {
        assert_eq!(entry.position, i as u128);
        assert_eq!(entry.logits, i == 3);
    }
    assert_eq!(prefill[0].token, 1);
    assert_eq!(prefill[1].token, 100 + 'a' as i32);
    assert_eq!(stub.batches[1], vec![BatchEntry { token: 7, position: 4, logits: true }]);
    assert_eq!(stub.batches[2], vec![BatchEntry { token: 8, position: 5, logits: true }]);
}

#[test]
fn first_action_asks_for_the_context() {
    let engine = LlmManager::new(true, 2048, 16).unwrap();
    let (generation, action) = engine.generate("hello");
    assert_eq!(action, EngineAction::CreateContext { context_window: 2048 });
    assert_eq!(generation.phase(), Phase::Context);
    assert_eq!(generation.generated(), 0);
    assert!(!generation.is_done());
    assert!(generation.accepts(&EngineEvent::ContextCreated));
    assert!(!generation.accepts(&EngineEvent::Decoded));
}

#[test]
fn tokenizer_is_handed_the_prompt() {
    let engine = LlmManager::new(true, 2048, 16).unwrap();
    let (mut generation, _) = engine.generate("what is up?");
    let action = generation.step(EngineEvent::ContextCreated);
    assert_eq!(action, EngineAction::Tokenize { prompt: "what is up?".to_string() });
    assert_eq!(generation.phase(), Phase::Tokens);
}

#[test]
fn finished_generation_accepts_nothing() {
    let engine = LlmManager::new(true, 2048, 16).unwrap();
    let (mut generation, _) = engine.generate("hello");
    let action = generation.step(EngineEvent::ContextFailed);
    assert_eq!(action, EngineAction::Finish { result: Err(ErrorKind::ContextInit) });
    assert!(generation.is_done());
    assert!(!generation.accepts(&EngineEvent::ContextCreated));
    assert!(!generation.accepts(&EngineEvent::Decoded));
}

#[test]
fn same_answers_give_the_same_text() {
    let script = vec![(7, Some("The ")), (8, Some("answer")), (9, None), (10, Some(" is 4."))];
    let one = LlmManager::new(true, 4096, 32).unwrap();
    let other = LlmManager::new(true, 4096, 32).unwrap();
    let (first, first_events) = run(&one, "2+2=", &mut Stub::new(script.clone()));
    let (second, second_events) = run(&other, "2+2=", &mut Stub::new(script));
    assert_eq!(first, second);
    assert_eq!(first_events, second_events);
    assert_eq!(first, Ok("The answer is 4.".to_string()));
}

#[test]
fn engine_is_ready_once_loaded() {
    let engine = LlmManager::new(true, 4096, 512).unwrap();
    assert!(engine.is_ready());
    assert_eq!(engine.context_window(), 4096);
    assert_eq!(engine.max_tokens(), 512);
}

#[test]
fn model_that_did_not_load_gives_no_engine() {
    assert_eq!(LlmManager::new(false, 4096, 512), Err(ErrorKind::ModelLoad));
}

#[test]
fn calls_never_take_more_answers_than_their_budget_allows() {
    for max_tokens in 0..20 {
        let mut stub = Stub::new(vec![]);
        stub.after = (5, Some("x"));
        let (result, events) = run(&engine(max_tokens), "go", &mut stub);
        assert_eq!(result.unwrap().len(), max_tokens);
        assert!(events <= 3 * max_tokens + 3);
    }
}
