use aura_nexus::engine::{EngineAction, EngineEvent, LlmManager};
use aura_nexus::error::ErrorKind;
use aura_nexus::worker::{wrap_outcome, Job, Worker, WorkerMessage, WorkerStatus};

fn running() -> Worker {
    let mut worker = Worker::new();
    worker.start(LlmManager::new(true, 4096, 512));
    worker
}

#[test]
fn health_check_sent_while_loading_is_answered_once_the_engine_is_there() {
    let mut worker = Worker::new();
    let ticket = worker.check_health().unwrap();
    assert_eq!(worker.next_job(), None);
    assert_eq!(worker.poll_health(ticket), None);
    worker.start(LlmManager::new(true, 4096, 512));
    assert_eq!(worker.status(), WorkerStatus::Running);
    assert_eq!(worker.next_job(), Some(Job::Health { ticket, ready: true }));
    assert_eq!(worker.poll_health(ticket), Some(Ok(true)));
}

#[test]
fn health_check_before_any_generation_has_completed() {
    let mut worker = running();
    let generation = worker.submit_generation("hello").unwrap();
    let health = worker.check_health().unwrap();
    match worker.next_job() {
        Some(Job::Generate { ticket, prompt }) => {
            assert_eq!(ticket, generation);
            assert_eq!(prompt, "hello");
        }
        other => panic!("unexpected job {:?}", other),
    }
    // the generation is under way: the health check waits its turn
    assert_eq!(worker.next_job(), None);
    assert_eq!(worker.poll_health(health), None);
    worker.complete(Ok("hi".to_string()));
    assert_eq!(worker.next_job(), Some(Job::Health { ticket: health, ready: true }));
    assert_eq!(worker.poll_health(health), Some(Ok(true)));
}

#[test]
fn worker_without_an_engine_is_unavailable() {
    let mut worker = Worker::new();
    worker.start(LlmManager::new(false, 4096, 512));
    assert_eq!(worker.status(), WorkerStatus::Closed);
    assert_eq!(worker.engine(), None);
    assert_eq!(worker.check_health(), Err(ErrorKind::WorkerUnavailable));
    assert_eq!(worker.submit_generation("hello"), Err(ErrorKind::WorkerUnavailable));
    assert_eq!(worker.next_job(), None);
}

#[test]
fn requests_sent_before_a_failed_load_are_dropped() {
    let mut worker = Worker::new();
    let early = worker.submit_generation("hello").unwrap();
    let health = worker.check_health().unwrap();
    worker.start(Err(ErrorKind::ModelLoad));
    assert_eq!(worker.queued(), 0);
    assert_eq!(worker.poll_generation(early), Some(Err(ErrorKind::WorkerDisconnected)));
    assert_eq!(worker.poll_health(health), Some(Err(ErrorKind::WorkerDisconnected)));
}

#[test]
fn request_queued_behind_a_shutdown_is_dropped() {
    let mut worker = running();
    let shutdown = worker.shutdown().unwrap();
    let queued = worker.submit_generation("too late").unwrap();
    assert_eq!(worker.poll_generation(queued), None);
    assert_eq!(worker.next_job(), Some(Job::Stop { ticket: shutdown }));
    assert_eq!(worker.status(), WorkerStatus::Closed);
    assert_eq!(worker.poll_generation(queued), Some(Err(ErrorKind::WorkerDisconnected)));
    assert_eq!(worker.next_job(), None);
    assert_eq!(worker.submit_generation("later still"), Err(ErrorKind::WorkerUnavailable));
}

#[test]
fn requests_before_a_shutdown_are_still_served() {
    let mut worker = running();
    let first = worker.submit_generation("first").unwrap();
    worker.shutdown().unwrap();
    assert!(matches!(worker.next_job(), Some(Job::Generate { .. })));
    worker.complete(Ok("done".to_string()));
    assert!(matches!(worker.next_job(), Some(Job::Stop { .. })));
    assert_eq!(worker.poll_generation(first), Some(Ok("done".to_string())));
}

#[test]
fn requests_are_served_in_the_order_of_arrival() {
    let mut worker = running();
    let mut tickets = Vec::new();
    for i in 0..5 {
        tickets.push(worker.submit_generation(&format!("prompt {}", i)).unwrap());
    }
    assert_eq!(tickets, vec![0, 1, 2, 3, 4]);
    let mut served = Vec::new();
    while let Some(job) = worker.next_job() {
        match job {
            Job::Generate { ticket, prompt } => {
                // no later request has an answer before this one has
                for later in tickets.iter().filter(|t| **t > ticket) {
                    assert_eq!(worker.poll_generation(*later), None);
                }
                served.push(ticket);
                worker.complete(Ok(format!("answer to {}", prompt)));
            }
            other => panic!("unexpected job {:?}", other),
        }
    }
    assert_eq!(served, tickets);
    for (i, ticket) in tickets.iter().enumerate() {
        assert_eq!(
            worker.poll_generation(*ticket),
            Some(Ok(format!("answer to prompt {}", i)))
        );
    }
}

#[test]
fn no_two_generations_overlap() {
    // A double of the engine that records when each call begins and ends.
    let mut clock = 0u32;
    let mut intervals: Vec<(u32, u32)> = Vec::new();
    let mut worker = running();
    for i in 0..4 {
        worker.submit_generation(&format!("prompt {}", i)).unwrap();
    }
    loop {
        let job = worker.next_job();
        match job {
            Some(Job::Generate { .. }) => {
                clock += 1;
                let began = clock;
                assert!(worker.is_busy());
                // whoever asks for more work meanwhile gets none
                for _ in 0..3 {
                    clock += 1;
                    assert_eq!(worker.next_job(), None);
                    worker.check_health().unwrap();
                }
                clock += 1;
                worker.complete(Ok(String::new()));
                intervals.push((began, clock));
                assert!(!worker.is_busy());
            }
            Some(Job::Health { .. }) => {}
            Some(Job::Stop { .. }) => unreachable!(),
            None => break,
        }
    }
    assert_eq!(intervals.len(), 4);
    for pair in intervals.windows(2) {
        assert!(pair[0].1 < pair[1].0);
    }
}

#[test]
fn engine_failures_are_wrapped() {
    let mut worker = running();
    let ticket = worker.submit_generation("").unwrap();
    worker.next_job();
    worker.complete(Err(ErrorKind::EmptyPrompt));
    assert_eq!(
        worker.poll_generation(ticket),
        Some(Err(ErrorKind::Generation(Box::new(ErrorKind::EmptyPrompt))))
    );
    assert_eq!(
        wrap_outcome(Err(ErrorKind::Decode)),
        Err(ErrorKind::Generation(Box::new(ErrorKind::Decode)))
    );
    assert_eq!(wrap_outcome(Ok("text".to_string())), Ok("text".to_string()));
}

#[test]
fn reply_is_collected_once() {
    let mut worker = running();
    let ticket = worker.submit_generation("hello").unwrap();
    worker.next_job();
    assert_eq!(worker.poll_generation(ticket), None);
    worker.complete(Ok("hi".to_string()));
    assert_eq!(worker.poll_generation(ticket), Some(Ok("hi".to_string())));
    assert_eq!(worker.poll_generation(ticket), Some(Err(ErrorKind::WorkerDisconnected)));
}

#[test]
fn reply_to_a_caller_who_gave_up_is_dropped() {
    let mut worker = running();
    let gone = worker.submit_generation("never mind").unwrap();
    let stays = worker.submit_generation("still here").unwrap();
    worker.abandon(gone);
    // the request is served all the same
    assert!(matches!(worker.next_job(), Some(Job::Generate { ticket, .. }) if ticket == gone));
    worker.complete(Ok("unheard".to_string()));
    assert_eq!(worker.poll_generation(gone), Some(Err(ErrorKind::WorkerDisconnected)));
    assert!(matches!(worker.next_job(), Some(Job::Generate { ticket, .. }) if ticket == stays));
    worker.complete(Ok("heard".to_string()));
    assert_eq!(worker.poll_generation(stays), Some(Ok("heard".to_string())));
}

#[test]
fn giving_up_during_the_generation_drops_the_reply() {
    let mut worker = running();
    let ticket = worker.submit_generation("hello").unwrap();
    worker.next_job();
    worker.abandon(ticket);
    worker.abandon(ticket);
    worker.complete(Err(ErrorKind::Decode));
    assert!(!worker.is_busy());
    assert_eq!(worker.poll_generation(ticket), Some(Err(ErrorKind::WorkerDisconnected)));
}

#[test]
fn giving_up_after_the_reply_throws_it_away() {
    let mut worker = running();
    let ticket = worker.submit_generation("hello").unwrap();
    let health = worker.check_health().unwrap();
    worker.next_job();
    worker.complete(Ok("hi".to_string()));
    worker.next_job();
    worker.abandon(ticket);
    worker.abandon(health);
    assert_eq!(worker.poll_generation(ticket), Some(Err(ErrorKind::WorkerDisconnected)));
    assert_eq!(worker.poll_health(health), Some(Err(ErrorKind::WorkerDisconnected)));
}

#[test]
fn health_check_of_a_caller_who_gave_up_is_answered_to_nobody() {
    let mut worker = running();
    let health = worker.check_health().unwrap();
    worker.abandon(health);
    assert_eq!(worker.next_job(), Some(Job::Health { ticket: health, ready: true }));
    assert_eq!(worker.poll_health(health), Some(Err(ErrorKind::WorkerDisconnected)));
}

#[test]
fn sending_never_waits_for_the_engine() {
    let mut worker = running();
    worker.submit_generation("long one").unwrap();
    worker.next_job();
    for i in 0..100 {
        assert_eq!(worker.submit(WorkerMessage::CheckHealth), Ok(1 + i));
    }
    assert!(worker.is_busy());
    assert_eq!(worker.queued(), 100);
    assert_eq!(worker.accepted(), 101);
}

#[test]
fn unknown_ticket_is_not_outstanding() {
    let mut worker = running();
    assert!(!worker.is_outstanding(0));
    let ticket = worker.submit_generation("hello").unwrap();
    assert!(worker.is_outstanding(ticket));
    assert!(!worker.is_outstanding(ticket + 1));
    assert_eq!(worker.poll_generation(ticket + 1), Some(Err(ErrorKind::WorkerDisconnected)));
    worker.next_job();
    assert!(worker.is_outstanding(ticket));
    worker.complete(Ok(String::new()));
    assert!(!worker.is_outstanding(ticket));
}

#[test]
fn new_worker_is_starting_and_empty() {
    let worker = Worker::new();
    assert_eq!(worker.status(), WorkerStatus::Starting);
    assert_eq!(worker.engine(), None);
    assert_eq!(worker.accepted(), 0);
    assert_eq!(worker.queued(), 0);
    assert!(!worker.is_busy());
}

#[test]
fn failures_are_put_in_words() {
    assert_eq!(ErrorKind::ModelLoad.describe(), "Failed to load model");
    assert_eq!(ErrorKind::ContextInit.describe(), "Failed to create context");
    assert_eq!(ErrorKind::Tokenize.describe(), "Failed to tokenize prompt");
    assert_eq!(ErrorKind::EmptyPrompt.describe(), "Tokenization produced no tokens");
    assert_eq!(ErrorKind::Decode.describe(), "Failed to decode batch");
    assert_eq!(
        ErrorKind::Generation(Box::new(ErrorKind::Decode)).describe(),
        "Generation failed: Failed to decode batch"
    );
    assert_eq!(ErrorKind::WorkerUnavailable.describe(), "The worker is not available");
    assert_eq!(ErrorKind::WorkerDisconnected.describe(), "The worker dropped the request");
    let wrapped = ErrorKind::Generation(Box::new(ErrorKind::EmptyPrompt));
    assert_eq!(wrapped.clone(), wrapped);
}

// A runtime whose model answers every prompt with its length, then stops.
fn answer_with_length(engine: &LlmManager, prompt: &str) -> Result<String, ErrorKind> {
    let (mut generation, mut action) = engine.generate(prompt);
    let mut tokens = 0;
    let mut said = false;
    loop {
        let event = match action {
            EngineAction::CreateContext { .. } => EngineEvent::ContextCreated,
            EngineAction::Tokenize { prompt } => {
                tokens = prompt.len();
                EngineEvent::Tokenized { tokens: prompt.bytes().map(|b| b as i32).collect() }
            }
            EngineAction::Decode { .. } => EngineEvent::Decoded,
            EngineAction::Sample => {
                EngineEvent::Sampled { token: tokens as i32, end_of_generation: said }
            }
            EngineAction::Detokenize { token } => {
                said = true;
                EngineEvent::Detokenized { piece: Some(format!(" {} ", token)) }
            }
            EngineAction::Finish { result } => return result,
        };
        assert!(generation.accepts(&event));
        action = generation.step(event);
    }
}

#[test]
fn worker_runs_the_engine_for_each_request() {
    let mut worker = running();
    let first = worker.submit_generation("four").unwrap();
    let empty = worker.submit_generation("").unwrap();
    let last = worker.submit_generation("sixsix").unwrap();
    worker.shutdown().unwrap();
    let engine = worker.engine().unwrap();
    loop {
        match worker.next_job() {
            Some(Job::Generate { prompt, .. }) => {
                let result = answer_with_length(&engine, &prompt);
                worker.complete(result);
            }
            Some(Job::Stop { .. }) => break,
            other => panic!("unexpected job {:?}", other),
        }
    }
    assert_eq!(worker.poll_generation(first), Some(Ok("4".to_string())));
    assert_eq!(
        worker.poll_generation(empty),
        Some(Err(ErrorKind::Generation(Box::new(ErrorKind::EmptyPrompt))))
    );
    assert_eq!(worker.poll_generation(last), Some(Ok("6".to_string())));
}
