use aura_nexus::chat::{
    begin_initialization, continue_initialization, ChatSession, Failure, InitAction, InitEvent,
    SamplingPreset, HISTORY_LIMIT,
};
use aura_nexus::mode::AppMode;

#[test]
fn conversation_begins_in_the_companions_mode() {
    let session = ChatSession::new();
    assert_eq!(session.mode(), AppMode::Companion);
    assert_eq!(session.get_current_mode(), "companion");
    assert!(session.history().is_empty());
    assert!(session.get_conversation_history(10).is_empty());
}

#[test]
fn exchange_is_noted_as_two_entries() {
    let mut session = ChatSession::new();
    let shown = session.record_exchange_at("2+2=?", "4", "2024-01-01T00:00:00+00:00");
    assert_eq!(shown.agent, "aura");
    assert_eq!(shown.response, "4");
    assert_eq!(shown.timestamp, "2024-01-01T00:00:00+00:00");
    assert_eq!(shown.mode, "companion");
    let history = session.history();
    assert_eq!(history.len(), 2);
    assert_eq!(history[0].role, "user");
    assert_eq!(history[0].content, "2+2=?");
    assert_eq!(history[0].timestamp, "2024-01-01T00:00:00+00:00");
    assert_eq!(history[1].role, "assistant");
    assert_eq!(history[1].content, "4");
    assert_eq!(history[1].timestamp, "2024-01-01T00:00:00+00:00");
}

#[test]
fn exchange_that_takes_place_now_is_stamped() {
    let mut session = ChatSession::new();
    let shown = session.record_exchange("hello", "hi");
    assert!(!shown.timestamp.is_empty());
    assert!(shown.timestamp.contains('T'));
    assert_eq!(session.history()[0].timestamp, shown.timestamp);
    assert_eq!(session.history()[1].timestamp, shown.timestamp);
}

#[test]
fn only_the_latest_twenty_entries_are_kept() {
    let mut session = ChatSession::new();
    for i in 0..13 {
        session.record_exchange_at(&format!("question {}", i), &format!("answer {}", i), "t");
    }
    assert_eq!(HISTORY_LIMIT, 20);
    let history = session.history();
    assert_eq!(history.len(), 20);
    assert_eq!(history[0].content, "question 3");
    assert_eq!(history[19].content, "answer 12");
}

#[test]
fn recent_history_is_the_tail_in_order() {
    let mut session = ChatSession::new();
    for i in 0..3 {
        session.record_exchange_at(&format!("q{}", i), &format!("a{}", i), "t");
    }
    let contents = |limit: usize| -> Vec<String> {
        session.get_conversation_history(limit).into_iter().map(|entry| entry.content).collect()
    };
    assert_eq!(contents(3), vec!["a1", "q2", "a2"]);
    assert_eq!(contents(0), Vec::<String>::new());
    assert_eq!(contents(100), vec!["q0", "a0", "q1", "a1", "q2", "a2"]);
}

#[test]
fn switching_the_mode_forgets_the_conversation() {
    let mut session = ChatSession::new();
    session.record_exchange_at("q", "a", "t");
    assert_eq!(session.switch_mode("youniverse"), Ok("youniverse".to_string()));
    assert_eq!(session.mode(), AppMode::Youniverse);
    assert!(session.history().is_empty());
    let shown = session.record_exchange_at("q", "a", "t");
    assert_eq!(shown.mode, "youniverse");
}

#[test]
fn unknown_mode_changes_nothing() {
    let mut session = ChatSession::new();
    session.record_exchange_at("q", "a", "t");
    assert_eq!(session.switch_mode("detective"), Err("Unknown mode: detective".to_string()));
    assert_eq!(session.mode(), AppMode::Companion);
    assert_eq!(session.history().len(), 2);
}

#[test]
fn failures_are_reported_with_their_cause() {
    assert_eq!(Failure::Generate.describe("boom"), "Failed to generate response: boom");
    assert_eq!(Failure::LogConversation.describe("boom"), "Failed to log conversation: boom");
    assert_eq!(Failure::HealthCheck.describe("boom"), "Health check failed: boom");
    assert_eq!(Failure::Search.describe("boom"), "Search failed: boom");
    assert_eq!(Failure::CheckModel.describe("boom"), "Failed to check model: boom");
    assert_eq!(Failure::DownloadModel.describe("boom"), "Failed to download model: boom");
    assert_eq!(Failure::LoadModel.describe(""), "Failed to load model: ");
}

#[test]
fn model_that_is_there_is_loaded() {
    assert_eq!(begin_initialization(), InitAction::CheckModel);
    assert_eq!(continue_initialization(InitEvent::Checked { found: Ok(true) }), InitAction::Load);
    assert_eq!(
        continue_initialization(InitEvent::Loaded { loaded: Ok(()) }),
        InitAction::Finish { result: Ok("Model initialized successfully".to_string()) }
    );
}

#[test]
fn missing_model_is_fetched_first() {
    assert_eq!(
        continue_initialization(InitEvent::Checked { found: Ok(false) }),
        InitAction::Download
    );
    assert_eq!(
        continue_initialization(InitEvent::Downloaded { fetched: Ok(()) }),
        InitAction::Load
    );
}

#[test]
fn first_failure_ends_the_initialization() {
    assert_eq!(
        continue_initialization(InitEvent::Checked { found: Err("no python".to_string()) }),
        InitAction::Finish { result: Err("Failed to check model: no python".to_string()) }
    );
    assert_eq!(
        continue_initialization(InitEvent::Downloaded { fetched: Err("offline".to_string()) }),
        InitAction::Finish { result: Err("Failed to download model: offline".to_string()) }
    );
    assert_eq!(
        continue_initialization(InitEvent::Loaded { loaded: Err("corrupt".to_string()) }),
        InitAction::Finish { result: Err("Failed to load model: corrupt".to_string()) }
    );
}

#[test]
fn presets_follow_the_mode() {
    let usual = SamplingPreset::default();
    assert_eq!(usual.temperature, 700);
    assert_eq!(usual.top_p, 950);
    assert_eq!(usual.top_k, 40);
    assert_eq!(usual.min_p, Some(50));
    assert_eq!(usual.frequency_penalty, Some(200));
    assert_eq!(usual.presence_penalty, Some(100));
    assert_eq!(usual.dry_multiplier, Some(700));
    assert_eq!(usual.xtc_probability, None);
    assert_eq!(usual.dynatemp_range, None);
    assert_eq!(usual.max_tokens, 512);
    assert_eq!(SamplingPreset::for_mode(AppMode::Companion), usual);
    let free = SamplingPreset::for_mode(AppMode::Youniverse);
    assert_eq!(free.temperature, 850);
    assert_eq!(free.top_p, 950);
    assert_eq!(free.min_p, Some(20));
    assert_eq!(free.frequency_penalty, Some(100));
    assert_eq!(free.presence_penalty, Some(200));
    assert_eq!(free.dry_multiplier, Some(500));
    assert_eq!(free.top_k, 40);
    assert_eq!(free.max_tokens, 512);
}

#[test]
fn thousandths_name_the_fractions_exactly() {
    let usual = SamplingPreset::default();
    assert_eq!(usual.temperature as f32 / 1000.0, 0.7f32);
    assert_eq!(usual.top_p as f32 / 1000.0, 0.95f32);
    assert_eq!(usual.min_p.unwrap() as f32 / 1000.0, 0.05f32);
    assert_eq!(usual.frequency_penalty.unwrap() as f32 / 1000.0, 0.2f32);
    assert_eq!(usual.presence_penalty.unwrap() as f32 / 1000.0, 0.1f32);
    let free = SamplingPreset::for_mode(AppMode::Youniverse);
    assert_eq!(free.temperature as f32 / 1000.0, 0.85f32);
    assert_eq!(free.min_p.unwrap() as f32 / 1000.0, 0.02f32);
    assert_eq!(free.dry_multiplier.unwrap() as f32 / 1000.0, 0.5f32);
}
