//! The generation engine: one prompt in, one text out.
//!
//! The engine owns no model. It decides what has to be asked of the model
//! runtime next and what each answer means: a [`Generation`] takes the
//! runtime's answers as [`EngineEvent`]s and hands out [`EngineAction`]s until
//! it hands out the result.

use crate::error::ErrorKind;
use crate::text::{trim, trimmed};
use vstd::prelude::*;
use vstd::string::*;

verus! {

/// Tokens of context that an engine asks for unless told otherwise.
pub const DEFAULT_CONTEXT_WINDOW: u32 = 4096;

/// Tokens that an engine generates at most unless told otherwise.
pub const DEFAULT_MAX_TOKENS: usize = 512;

/// Layers that the loader is asked to put on an accelerator: more than any
/// model has, so that all of them go there where one is present.
pub const GPU_LAYERS: u32 = 999;

/// One slot of a forward pass.
#[derive(Debug, Clone, Copy, PartialEq, Eq)]
pub struct BatchEntry {
    /// The token, in the loaded model's vocabulary.
    pub token: i32,
    /// Its place in the sequence, counted from the first prompt token. The
    /// type is wide enough for the length of any prompt and any budget
    /// together; a runtime that numbers places in fewer bits refuses the
    /// batch whose places it cannot number.
    pub position: u128,
    /// Whether the pass computes next-token logits at this slot.
    pub logits: bool,
}

/// The batch that primes the model with a whole prompt: every token at its
/// place, logits at the last one only.
pub open spec fn prefill_batch(tokens: Seq<i32>) -> Seq<BatchEntry> {
    Seq::new(
        tokens.len(),
        |i: int| BatchEntry { token: tokens[i], position: i as u128, logits: i == tokens.len() - 1 },
    )
}

/// The batch that feeds one generated token back.
pub open spec fn advance_batch(token: i32, position: int) -> Seq<BatchEntry> {
    seq![BatchEntry { token, position: position as u128, logits: true }]
}

/// A batch flags at most one slot for logits.
pub open spec fn at_most_one_logits(batch: Seq<BatchEntry>) -> bool {
    forall|i: int, j: int|
        0 <= i < batch.len() && 0 <= j < batch.len() && #[trigger] batch[i].logits
            && #[trigger] batch[j].logits ==> i == j
}

/// Builds [`prefill_batch`].
pub fn build_prefill(tokens: &Vec<i32>) -> (batch: Vec<BatchEntry>)
    ensures
        batch@ == prefill_batch(tokens@),
        at_most_one_logits(batch@),
{
    let n = tokens.len();
    let mut batch: Vec<BatchEntry> = Vec::new();
    let mut i: usize = 0;
    while i < n
        invariant
            n == tokens.len(),
            i <= n,
            batch@ == prefill_batch(tokens@).take(i as int),
        decreases n - i,
    {
        batch.push(BatchEntry { token: tokens[i], position: i as u128, logits: i == n - 1 });
        assert(batch@ == prefill_batch(tokens@).take(i + 1));
        i = i + 1;
    }
    assert(prefill_batch(tokens@).take(n as int) == prefill_batch(tokens@));
    batch
}

/// Builds [`advance_batch`].
pub fn build_advance(token: i32, position: u128) -> (batch: Vec<BatchEntry>)
    ensures
        batch@ == advance_batch(token, position as int),
        at_most_one_logits(batch@),
{
    let mut batch: Vec<BatchEntry> = Vec::new();
    batch.push(BatchEntry { token, position, logits: true });
    assert(batch@ == advance_batch(token, position as int));
    batch
}

/// What a generation waits for.
#[derive(Debug, Clone, Copy, PartialEq, Eq, Structural)]
pub enum Phase {
    /// An execution context.
    Context,
    /// The prompt's tokens.
    Tokens,
    /// The forward pass over the prompt.
    Prefill,
    /// The next token.
    Sample,
    /// The text of the token sampled last.
    Piece,
    /// The forward pass over the token sampled last.
    Advance,
    /// Nothing: the result is out.
    Done,
}

/// What the model runtime reports.
#[derive(Debug, PartialEq, Eq)]
pub enum EngineEvent {
    /// A context of the size asked for exists.
    ContextCreated,
    /// No context could be allocated.
    ContextFailed,
    /// The prompt as tokens, the beginning-of-sequence marker first.
    Tokenized { tokens: Vec<i32> },
    /// The tokenizer rejected the prompt.
    TokenizeFailed,
    /// The batch went through.
    Decoded,
    /// The batch was refused.
    DecodeFailed,
    /// The token that greedy sampling picked, and whether it ends generation
    /// for this model.
    Sampled { token: i32, end_of_generation: bool },
    /// The token's text, or none where the token has no text.
    Detokenized { piece: Option<String> },
}

/// What the engine wants done.
#[derive(Debug, PartialEq, Eq)]
pub enum EngineAction {
    /// Allocate an execution context for this many tokens.
    CreateContext { context_window: u32 },
    /// Tokenize the prompt, always with the beginning-of-sequence marker.
    Tokenize { prompt: String },
    /// Submit the batch to the context.
    Decode { batch: Vec<BatchEntry> },
    /// Pick the most likely next token from the logits of the last pass.
    Sample,
    /// Turn the token into text.
    Detokenize { token: i32 },
    /// Nothing more: this is the outcome of the call.
    Finish { result: Result<String, ErrorKind> },
}

/// [`EngineEvent`] as a mathematical value.
pub enum EventModel {
    ContextCreated,
    ContextFailed,
    Tokenized { tokens: Seq<i32> },
    TokenizeFailed,
    Decoded,
    DecodeFailed,
    Sampled { token: i32, end_of_generation: bool },
    Detokenized { piece: Option<Seq<char>> },
}

/// [`EngineAction`] as a mathematical value.
pub enum ActionModel {
    CreateContext { context_window: u32 },
    Tokenize { prompt: Seq<char> },
    Decode { batch: Seq<BatchEntry> },
    Sample,
    Detokenize { token: i32 },
    Finish { result: Result<Seq<char>, ErrorKind> },
}

impl View for EngineEvent {
    type V = EventModel;

    open spec fn view(&self) -> EventModel {
        match *self {
            EngineEvent::ContextCreated => EventModel::ContextCreated,
            EngineEvent::ContextFailed => EventModel::ContextFailed,
            EngineEvent::Tokenized { tokens } => EventModel::Tokenized { tokens: tokens@ },
            EngineEvent::TokenizeFailed => EventModel::TokenizeFailed,
            EngineEvent::Decoded => EventModel::Decoded,
            EngineEvent::DecodeFailed => EventModel::DecodeFailed,
            EngineEvent::Sampled { token, end_of_generation } => EventModel::Sampled {
                token,
                end_of_generation,
            },
            EngineEvent::Detokenized { piece } => EventModel::Detokenized {
                piece: match piece {
                    Some(text) => Some(text@),
                    None => None,
                },
            },
        }
    }
}

impl View for EngineAction {
    type V = ActionModel;

    open spec fn view(&self) -> ActionModel {
        match *self {
            EngineAction::CreateContext { context_window } => ActionModel::CreateContext {
                context_window,
            },
            EngineAction::Tokenize { prompt } => ActionModel::Tokenize { prompt: prompt@ },
            EngineAction::Decode { batch } => ActionModel::Decode { batch: batch@ },
            EngineAction::Sample => ActionModel::Sample,
            EngineAction::Detokenize { token } => ActionModel::Detokenize { token },
            EngineAction::Finish { result } => ActionModel::Finish {
                result: match result {
                    Ok(text) => Ok(text@),
                    Err(kind) => Err(kind),
                },
            },
        }
    }
}

/// A generation as a mathematical value.
pub struct GenerationModel {
    /// Size of the context asked for.
    pub context_window: u32,
    /// Tokens generated at most.
    pub max_tokens: nat,
    /// The prompt.
    pub prompt: Seq<char>,
    /// What is waited for.
    pub phase: Phase,
    /// Tokens of the prompt; 0 until they are known.
    pub prompt_len: nat,
    /// Tokens generated and fed back so far.
    pub generated: nat,
    /// The token sampled last.
    pub token: i32,
    /// The text assembled so far.
    pub output: Seq<char>,
}

impl GenerationModel {
    /// The generation as `LlmManager::generate` leaves it.
    pub open spec fn start(context_window: u32, max_tokens: nat, prompt: Seq<char>) -> Self {
        GenerationModel {
            context_window,
            max_tokens,
            prompt,
            phase: Phase::Context,
            prompt_len: 0,
            generated: 0,
            token: 0,
            output: Seq::empty(),
        }
    }

    /// What holds of every generation that `start` and `after` lead to.
    pub open spec fn inv(self) -> bool {
        &&& self.generated <= self.max_tokens
        &&& match self.phase {
            Phase::Context | Phase::Tokens => self.prompt_len == 0 && self.generated == 0
                && self.output.len() == 0,
            Phase::Prefill => 0 < self.prompt_len && self.generated == 0 && self.output.len()
                == 0,
            Phase::Sample | Phase::Piece | Phase::Advance => 0 < self.prompt_len
                && self.generated < self.max_tokens,
            Phase::Done => true,
        }
    }

    /// Whether `event` answers what the generation waits for.
    pub open spec fn accepts(self, event: EventModel) -> bool {
        match self.phase {
            Phase::Context => event is ContextCreated || event is ContextFailed,
            Phase::Tokens => event is Tokenized || event is TokenizeFailed,
            Phase::Prefill | Phase::Advance => event is Decoded || event is DecodeFailed,
            Phase::Sample => event is Sampled,
            Phase::Piece => event is Detokenized,
            Phase::Done => false,
        }
    }

    /// The generation once it is over, whatever the outcome.
    pub open spec fn done(self) -> Self {
        GenerationModel { phase: Phase::Done, ..self }
    }

    /// The successful outcome: the assembled text, trimmed.
    pub open spec fn finished(self) -> ActionModel {
        ActionModel::Finish { result: Ok(trimmed(self.output)) }
    }

    /// The failed outcome.
    pub open spec fn failed(kind: ErrorKind) -> ActionModel {
        ActionModel::Finish { result: Err(kind) }
    }

    /// The generation after `event`, and what it wants done then.
    pub open spec fn step(self, event: EventModel) -> (Self, ActionModel) {
        match (self.phase, event) {
            (Phase::Context, EventModel::ContextCreated) => (
                GenerationModel { phase: Phase::Tokens, ..self },
                ActionModel::Tokenize { prompt: self.prompt },
            ),
            (Phase::Context, EventModel::ContextFailed) => (
                self.done(),
                Self::failed(ErrorKind::ContextInit),
            ),
            (Phase::Tokens, EventModel::Tokenized { tokens }) => if tokens.len() == 0 {
                (self.done(), Self::failed(ErrorKind::EmptyPrompt))
            } else {
                (
                    GenerationModel { phase: Phase::Prefill, prompt_len: tokens.len(), ..self },
                    ActionModel::Decode { batch: prefill_batch(tokens) },
                )
            },
            (Phase::Tokens, EventModel::TokenizeFailed) => (
                self.done(),
                Self::failed(ErrorKind::Tokenize),
            ),
            (Phase::Prefill, EventModel::Decoded) => if self.max_tokens == 0 {
                (self.done(), self.finished())
            } else {
                (GenerationModel { phase: Phase::Sample, ..self }, ActionModel::Sample)
            },
            (Phase::Sample, EventModel::Sampled { token, end_of_generation }) => if end_of_generation {
                (self.done(), self.finished())
            } else {
                (
                    GenerationModel { phase: Phase::Piece, token, ..self },
                    ActionModel::Detokenize { token },
                )
            },
            (Phase::Piece, EventModel::Detokenized { piece }) => {
                let grown = GenerationModel {
                    output: match piece {
                        Some(text) => self.output + text,
                        None => self.output,
                    },
                    ..self
                };
                (
                    GenerationModel { phase: Phase::Advance, ..grown },
                    ActionModel::Decode {
                        batch: advance_batch(self.token, (self.prompt_len + self.generated) as int),
                    },
                )
            },
            (Phase::Advance, EventModel::Decoded) => {
                let fed = GenerationModel { generated: self.generated + 1, ..self };
                if fed.generated == self.max_tokens {
                    (fed.done(), fed.finished())
                } else {
                    (GenerationModel { phase: Phase::Sample, ..fed }, ActionModel::Sample)
                }
            },
            (Phase::Prefill, EventModel::DecodeFailed) | (
                Phase::Advance,
                EventModel::DecodeFailed,
            ) => (self.done(), Self::failed(ErrorKind::Decode)),
            // an answer to a question that was not asked: never taken
            _ => (self, ActionModel::Sample),
        }
    }

    /// The generation after `event`.
    pub open spec fn after(self, event: EventModel) -> Self {
        self.step(event).0
    }

    /// What the generation wants done once `event` has come.
    pub open spec fn reaction(self, event: EventModel) -> ActionModel {
        self.step(event).1
    }

    /// Whether each of `events` in turn answers what the generation waits for.
    pub open spec fn follows(self, events: Seq<EventModel>) -> bool
        decreases events.len(),
    {
        events.len() > 0 ==> self.accepts(events.first()) && self.after(events.first()).follows(
            events.drop_first(),
        )
    }

    /// The generation after all of `events`.
    pub open spec fn run(self, events: Seq<EventModel>) -> Self
        decreases events.len(),
    {
        if events.len() == 0 {
            self
        } else {
            self.after(events.first()).run(events.drop_first())
        }
    }

    /// The most events that the generation can still take.
    pub open spec fn budget(self) -> nat {
        match self.phase {
            Phase::Context => 3 * self.max_tokens + 3,
            Phase::Tokens => 3 * self.max_tokens + 2,
            Phase::Prefill => 3 * self.max_tokens + 1,
            Phase::Sample => (3 * (self.max_tokens - self.generated)) as nat,
            Phase::Piece => (3 * (self.max_tokens - self.generated) - 1) as nat,
            Phase::Advance => (3 * (self.max_tokens - self.generated) - 2) as nat,
            Phase::Done => 0,
        }
    }

    /// What the generation wants done once the last of `events` has come.
    pub open spec fn outcome(self, events: Seq<EventModel>) -> ActionModel
        decreases events.len(),
    {
        if events.len() <= 1 {
            self.reaction(events.first())
        } else {
            self.after(events.first()).outcome(events.drop_first())
        }
    }
}

/// An answer of a runtime that does not fail, for a prompt of at least one
/// token and a model that does not end generation.
pub open spec fn unbroken(event: EventModel) -> bool {
    match event {
        EventModel::ContextFailed | EventModel::TokenizeFailed | EventModel::DecodeFailed => false,
        EventModel::Tokenized { tokens } => 0 < tokens.len(),
        EventModel::Sampled { end_of_generation, .. } => !end_of_generation,
        _ => true,
    }
}

/// The text that an answer adds to the output.
pub open spec fn said(event: EventModel) -> Seq<char> {
    match event {
        EventModel::Detokenized { piece: Some(text) } => text,
        _ => Seq::empty(),
    }
}

/// The texts of the tokens in `events`, one after the other.
pub open spec fn pieces(events: Seq<EventModel>) -> Seq<char>
    decreases events.len(),
{
    if events.len() == 0 {
        Seq::empty()
    } else {
        said(events.first()) + pieces(events.drop_first())
    }
}

/// An engine failure of its own: what `generate` can end in.
pub open spec fn is_engine_failure(kind: ErrorKind) -> bool {
    kind is ContextInit || kind is Tokenize || kind is EmptyPrompt || kind is Decode
}

/// The engine's settings: a model that loaded, and the two budgets that apply
/// to every call.
#[derive(Debug, Clone, Copy, PartialEq, Eq)]
pub struct LlmManager {
    context_window: u32,
    max_tokens: usize,
}

impl LlmManager {
    /// Size of the context that each call allocates.
    pub closed spec fn spec_context_window(&self) -> u32 {
        self.context_window
    }

    /// Tokens that each call generates at most.
    pub closed spec fn spec_max_tokens(&self) -> usize {
        self.max_tokens
    }

    /// The engine for a model whose load went as `model_loaded` says. A model
    /// that did not load is fatal: there is no engine without one.
    pub fn new(model_loaded: bool, context_window: u32, max_tokens: usize) -> (r: Result<
        Self,
        ErrorKind,
    >)
        ensures
            model_loaded ==> (r matches Ok(engine) && engine.spec_context_window()
                == context_window && engine.spec_max_tokens() == max_tokens),
            !model_loaded ==> r == Err::<Self, ErrorKind>(ErrorKind::ModelLoad),
    {
        if model_loaded {
            Ok(LlmManager { context_window, max_tokens })
        } else {
            Err(ErrorKind::ModelLoad)
        }
    }

    /// Size of the context that each call allocates.
    #[verifier::when_used_as_spec(spec_context_window)]
    pub fn context_window(&self) -> (r: u32)
        ensures
            r == self.spec_context_window(),
    {
        self.context_window
    }

    /// Tokens that each call generates at most.
    #[verifier::when_used_as_spec(spec_max_tokens)]
    pub fn max_tokens(&self) -> (r: usize)
        ensures
            r == self.spec_max_tokens(),
    {
        self.max_tokens
    }

    /// An engine exists only once its model has loaded, and nothing can
    /// unload it.
    pub fn is_ready(&self) -> (r: bool)
        ensures
            r,
    {
        true
    }

    /// Begins a call: the generation, and the first thing it wants done.
    pub fn generate(&self, prompt: &str) -> (r: (Generation, EngineAction))
        ensures
            r.0.wf(),
            r.0@ == GenerationModel::start(
                self.spec_context_window(),
                self.spec_max_tokens() as nat,
                prompt@,
            ),
            r.1@ == (ActionModel::CreateContext { context_window: self.spec_context_window() }),
    {
        let generation = Generation {
            context_window: self.context_window,
            max_tokens: self.max_tokens,
            prompt: prompt.to_owned(),
            phase: Phase::Context,
            prompt_len: 0,
            generated: 0,
            token: 0,
            output: String::new(),
        };
        (generation, EngineAction::CreateContext { context_window: self.context_window })
    }
}

/// One call of the engine, under way.
#[derive(Debug)]
pub struct Generation {
    context_window: u32,
    max_tokens: usize,
    prompt: String,
    phase: Phase,
    prompt_len: usize,
    generated: usize,
    token: i32,
    output: String,
}

impl View for Generation {
    type V = GenerationModel;

    closed spec fn view(&self) -> GenerationModel {
        GenerationModel {
            context_window: self.context_window,
            max_tokens: self.max_tokens as nat,
            prompt: self.prompt@,
            phase: self.phase,
            prompt_len: self.prompt_len as nat,
            generated: self.generated as nat,
            token: self.token,
            output: self.output@,
        }
    }
}

impl Generation {
    /// The generation is one that `LlmManager::generate` and `step` lead to.
    pub open spec fn wf(&self) -> bool {
        self@.inv()
    }

    /// What the generation waits for.
    pub fn phase(&self) -> (r: Phase)
        ensures
            r == self@.phase,
    {
        self.phase
    }

    /// Tokens generated and fed back so far.
    pub fn generated(&self) -> (r: usize)
        ensures
            r == self@.generated,
    {
        self.generated
    }

    /// Whether the result is out.
    pub fn is_done(&self) -> (r: bool)
        ensures
            r == (self@.phase is Done),
    {
        match self.phase {
            Phase::Done => true,
            _ => false,
        }
    }

    /// Whether `event` answers what the generation waits for.
    pub fn accepts(&self, event: &EngineEvent) -> (r: bool)
        ensures
            r == self@.accepts(event@),
    {
        match self.phase {
            Phase::Context => match event {
                EngineEvent::ContextCreated | EngineEvent::ContextFailed => true,
                _ => false,
            },
            Phase::Tokens => match event {
                EngineEvent::Tokenized { .. } | EngineEvent::TokenizeFailed => true,
                _ => false,
            },
            Phase::Prefill | Phase::Advance => match event {
                EngineEvent::Decoded | EngineEvent::DecodeFailed => true,
                _ => false,
            },
            Phase::Sample => match event {
                EngineEvent::Sampled { .. } => true,
                _ => false,
            },
            Phase::Piece => match event {
                EngineEvent::Detokenized { .. } => true,
                _ => false,
            },
            Phase::Done => false,
        }
    }

    fn finish(&mut self) -> (action: EngineAction)
        ensures
            final(self)@ == old(self)@.done(),
            action@ == old(self)@.finished(),
    {
        self.phase = Phase::Done;
        EngineAction::Finish { result: Ok(trim(self.output.as_str())) }
    }

    fn fail(&mut self, kind: ErrorKind) -> (action: EngineAction)
        ensures
            final(self)@ == old(self)@.done(),
            action@ == GenerationModel::failed(kind),
    {
        self.phase = Phase::Done;
        EngineAction::Finish { result: Err(kind) }
    }

    /// Takes the runtime's answer and says what to do next.
    ///
    /// The prompt goes through in one batch. Up to `max_tokens` times a token
    /// is sampled, its text appended and the token fed back; a token that
    /// ends generation, or the spent budget, ends the call with the text
    /// assembled so far, trimmed. A token without text is skipped. A batch
    /// that is refused ends the call with `Decode` and no text.
    pub fn step(&mut self, event: EngineEvent) -> (action: EngineAction)
        requires
            old(self).wf(),
            old(self)@.accepts(event@),
        ensures
            final(self).wf(),
            final(self)@ == old(self)@.after(event@),
            action@ == old(self)@.reaction(event@),
    {
        match event {
            EngineEvent::ContextCreated => {
                self.phase = Phase::Tokens;
                EngineAction::Tokenize { prompt: self.prompt.clone() }
            },
            EngineEvent::ContextFailed => self.fail(ErrorKind::ContextInit),
            EngineEvent::Tokenized { tokens } => {
                let n = tokens.len();
                if n == 0 {
                    self.fail(ErrorKind::EmptyPrompt)
                } else {
                    self.phase = Phase::Prefill;
                    self.prompt_len = n;
                    EngineAction::Decode { batch: build_prefill(&tokens) }
                }
            },
            EngineEvent::TokenizeFailed => self.fail(ErrorKind::Tokenize),
            EngineEvent::Decoded => match self.phase {
                Phase::Prefill => {
                    if self.max_tokens == 0 {
                        self.finish()
                    } else {
                        self.phase = Phase::Sample;
                        EngineAction::Sample
                    }
                },
                _ => {
                    self.generated = self.generated + 1;
                    if self.generated == self.max_tokens {
                        self.finish()
                    } else {
                        self.phase = Phase::Sample;
                        EngineAction::Sample
                    }
                },
            },
            EngineEvent::DecodeFailed => self.fail(ErrorKind::Decode),
            EngineEvent::Sampled { token, end_of_generation } => {
                if end_of_generation {
                    self.finish()
                } else {
                    self.phase = Phase::Piece;
                    self.token = token;
                    EngineAction::Detokenize { token }
                }
            },
            EngineEvent::Detokenized { piece } => {
                match piece {
                    Some(text) => {
                        self.output.append(text.as_str());
                    },
                    None => {},
                }
                self.phase = Phase::Advance;
                let position: u128 = self.prompt_len as u128 + self.generated as u128;
                EngineAction::Decode { batch: build_advance(self.token, position) }
            },
        }
    }
}

/// Every answer brings the call closer to its end, and the call ends in a
/// text or in one of the engine's own failures. Once the prompt has come
/// back as tokens, the only failure left is a batch that does not go
/// through.
pub proof fn law_progress(generation: GenerationModel, event: EventModel)
    requires
        generation.inv(),
        generation.accepts(event),
    ensures
        generation.after(event).inv(),
        generation.after(event).budget() < generation.budget(),
        generation.after(event).max_tokens == generation.max_tokens,
        generation.reaction(event) is Finish <==> generation.after(event).phase is Done,
        generation.reaction(event) matches ActionModel::Finish { result: Err(kind) }
            ==> is_engine_failure(kind),
        generation.prompt_len > 0 ==> (generation.reaction(event) matches ActionModel::Finish {
            result: Err(kind),
        } ==> kind is Decode),
        generation.reaction(event) matches ActionModel::Decode { batch } ==> at_most_one_logits(
            batch,
        ),
{
}

/// A call takes at most three answers for each token of its budget and three
/// more, and never generates more tokens than its budget.
pub proof fn law_termination(generation: GenerationModel, events: Seq<EventModel>)
    requires
        generation.inv(),
        generation.follows(events),
    ensures
        events.len() + generation.run(events).budget() <= generation.budget(),
        generation.run(events).inv(),
        generation.run(events).generated <= generation.max_tokens,
        generation.run(events).max_tokens == generation.max_tokens,
    decreases events.len(),
{
    if events.len() > 0 {
        law_progress(generation, events.first());
        law_termination(generation.after(events.first()), events.drop_first());
    }
}

/// A call whose model never ends generation, and whose runtime never fails,
/// spends its whole budget and then succeeds: it has generated `max_tokens`
/// tokens, neither more nor fewer, and returns their texts, trimmed.
pub proof fn law_budget_spent(generation: GenerationModel, events: Seq<EventModel>)
    requires
        generation.inv(),
        !(generation.phase is Done),
        generation.follows(events),
        forall|i: int| 0 <= i < events.len() ==> unbroken(#[trigger] events[i]),
        generation.run(events).phase is Done,
    ensures
        events.len() == generation.budget(),
        generation.run(events).generated == generation.max_tokens,
        generation.run(events).output == generation.output + pieces(events),
        generation.outcome(events) == (ActionModel::Finish {
            result: Ok(trimmed(generation.output + pieces(events))),
        }),
    decreases events.len(),
{
    // The call is not over, so there is an answer to take.
    assert(events.len() > 0) by {
        if events.len() == 0 {
            assert(generation.run(events) == generation);
        }
    }
    let event = events.first();
    let next = generation.after(event);
    let rest = events.drop_first();
    assert(generation.accepts(event));
    assert(next.follows(rest));
    assert(generation.run(events) == next.run(rest));
    assert(unbroken(event)) by {
        assert(events[0] == event);
    }
    assert(pieces(events) == said(event) + pieces(rest));
    assert forall|i: int| 0 <= i < rest.len() implies unbroken(#[trigger] rest[i]) by {
        assert(rest[i] == events[i + 1]);
    }
    // One answer, phase by phase: what the call waits for next, what the
    // answer adds to the text, and that one answer fewer is to come.
    let more = (generation.max_tokens - generation.generated) as int;
    match generation.phase {
        Phase::Context => {
            assert(event is ContextCreated);
            assert(next == GenerationModel { phase: Phase::Tokens, ..generation });
            assert(generation.budget() == 3 * generation.max_tokens + 3);
            assert(next.budget() == 3 * generation.max_tokens + 2);
        },
        Phase::Tokens => {
            assert(event is Tokenized);
            let tokens = event->tokens;
            assert(tokens.len() > 0);
            assert(next == GenerationModel {
                phase: Phase::Prefill,
                prompt_len: tokens.len(),
                ..generation
            });
            assert(generation.budget() == 3 * generation.max_tokens + 2);
            assert(next.budget() == 3 * generation.max_tokens + 1);
        },
        Phase::Prefill => {
            assert(event is Decoded);
            assert(generation.generated == 0);
            assert(generation.budget() == 3 * generation.max_tokens + 1);
            if generation.max_tokens == 0 {
                assert(next == generation.done());
                assert(generation.reaction(event) == generation.finished());
            } else {
                assert(next == GenerationModel { phase: Phase::Sample, ..generation });
                assert(next.budget() == 3 * generation.max_tokens);
            }
        },
        Phase::Sample => {
            assert(event is Sampled);
            assert(!event->end_of_generation);
            assert(next == GenerationModel {
                phase: Phase::Piece,
                token: event->token,
                ..generation
            });
            assert(generation.budget() == 3 * more);
            assert(next.budget() == 3 * more - 1);
        },
        Phase::Piece => {
            assert(event is Detokenized);
            assert(next == GenerationModel {
                phase: Phase::Advance,
                output: generation.output + said(event),
                ..generation
            }) by {
                assert(generation.output + Seq::<char>::empty() == generation.output);
            }
            assert(generation.budget() == 3 * more - 1);
            assert(next.budget() == 3 * more - 2);
        },
        Phase::Advance => {
            assert(event is Decoded);
            assert(generation.budget() == 3 * more - 2);
            let fed = GenerationModel { generated: generation.generated + 1, ..generation };
            if fed.generated == generation.max_tokens {
                assert(more == 1);
                assert(next == fed.done());
                assert(generation.reaction(event) == fed.finished());
            } else {
                assert(next == GenerationModel { phase: Phase::Sample, ..fed });
                assert(next.budget() == 3 * (more - 1));
            }
        },
        Phase::Done => {},
    }
    assert(next.inv());
    assert(next.max_tokens == generation.max_tokens);
    assert(next.output == generation.output + said(event)) by {
        assert(generation.output + Seq::<char>::empty() == generation.output);
    }
    if next.phase is Done {
        // The answer was the last: nothing may follow it.
        assert(rest.len() == 0) by {
            if rest.len() > 0 {
                assert(next.accepts(rest.first()));
            }
        }
        assert(generation.run(events) == next);
        assert(pieces(rest) == Seq::<char>::empty());
        assert(said(event) + Seq::<char>::empty() == said(event));
        assert(next.generated == generation.max_tokens);
        assert(generation.budget() == 1);
        assert(generation.outcome(events) == generation.reaction(event));
        assert(generation.reaction(event) == (ActionModel::Finish {
            result: Ok(trimmed(next.output)),
        }));
    } else {
        // More answers follow: the rest of the run is a run of its own.
        law_budget_spent(next, rest);
        assert(next.budget() + 1 == generation.budget());
        assert(events.len() == rest.len() + 1);
        assert(rest.len() > 0);
        assert(generation.outcome(events) == next.outcome(rest));
        assert((generation.output + said(event)) + pieces(rest) == generation.output + (said(event)
            + pieces(rest)));
    }
}

/// A prompt that tokenizes to nothing fails with `EmptyPrompt`, and nothing
/// else does.
pub proof fn law_empty_prompt(generation: GenerationModel, event: EventModel)
    requires
        generation.inv(),
        generation.accepts(event),
    ensures
        generation.reaction(event) == GenerationModel::failed(ErrorKind::EmptyPrompt) <==> (event
            matches EventModel::Tokenized { tokens } && tokens.len() == 0),
{
}

/// The outcome is a function of the engine's settings, the prompt and the
/// runtime's answers: equal calls that get equal answers end alike.
pub proof fn law_deterministic(
    one: GenerationModel,
    other: GenerationModel,
    events: Seq<EventModel>,
)
    requires
        one == other,
    ensures
        one.run(events) == other.run(events),
        one.follows(events) == other.follows(events),
{
}

} // verus!
