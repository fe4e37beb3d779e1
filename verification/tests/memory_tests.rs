use aura_nexus::memory::{MemoryManager, MAX_MESSAGES};

#[test]
fn new_memory_is_empty() {
    let memory = MemoryManager::new();
    assert_eq!(memory.message_count(), 0);
    assert_eq!(memory.get_recent_context(10), "");
    assert_eq!(MAX_MESSAGES, 50);
}

#[test]
fn messages_read_as_lines() {
    let mut memory = MemoryManager::new();
    memory.add_message("user", "Hello");
    memory.add_message("assistant", "Hi there");
    memory.add_message("user", "2+2=?");
    assert_eq!(memory.message_count(), 3);
    assert_eq!(memory.get_recent_context(10), "user: Hello\nassistant: Hi there\nuser: 2+2=?");
    assert_eq!(memory.get_recent_context(3), "user: Hello\nassistant: Hi there\nuser: 2+2=?");
    assert_eq!(memory.get_recent_context(2), "assistant: Hi there\nuser: 2+2=?");
    assert_eq!(memory.get_recent_context(1), "user: 2+2=?");
    assert_eq!(memory.get_recent_context(0), "");
}

#[test]
fn only_the_latest_fifty_are_kept() {
    let mut memory = MemoryManager::new();
    for i in 0..60 {
        memory.add_message_at("user", &format!("message {}", i), "2024-01-01T00:00:00+00:00");
    }
    assert_eq!(memory.message_count(), 50);
    let context = memory.get_recent_context(100);
    let lines: Vec<&str> = context.lines().collect();
    assert_eq!(lines.len(), 50);
    assert_eq!(lines[0], "user: message 10");
    assert_eq!(lines[49], "user: message 59");
}

#[test]
fn clear_forgets_everything() {
    let mut memory = MemoryManager::new();
    memory.add_message("user", "Hello");
    memory.clear();
    assert_eq!(memory.message_count(), 0);
    assert_eq!(memory.get_recent_context(5), "");
    memory.add_message("user", "again");
    assert_eq!(memory.get_recent_context(5), "user: again");
}
