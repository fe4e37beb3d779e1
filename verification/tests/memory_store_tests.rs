use aura_nexus::memory_store::{contains_text, MemoryFilters, MemoryStore};
use aura_nexus::metadata::{MetaValue, Metadata};

#[test]
fn test_add_and_get() {
    let mut store = MemoryStore::new();
    let id = store.add(
        "Test memory".to_string(),
        Some("user_1".to_string()),
        None,
        None,
        Metadata::new(),
    );

    let memory = store.get(&id).unwrap();
    assert_eq!(memory.content, "Test memory");
    assert_eq!(memory.user_id.as_ref().unwrap(), "user_1");
}

#[test]
fn test_get_all_with_filters() {
    let mut store = MemoryStore::new();

    store.add("Memory 1".to_string(), Some("user_1".to_string()), None, None, Metadata::new());
    store.add("Memory 2".to_string(), Some("user_1".to_string()), None, None, Metadata::new());
    store.add("Memory 3".to_string(), Some("user_2".to_string()), None, None, Metadata::new());

    let filters = MemoryFilters { user_id: Some("user_1".to_string()), ..Default::default() };

    let results = store.get_all(&filters, 100);
    assert_eq!(results.len(), 2);
}

#[test]
fn test_search() {
    let mut store = MemoryStore::new();

    store.add("Patient has diabetes".to_string(), Some("user_1".to_string()), None, None, Metadata::new());
    store.add("Patient has hypertension".to_string(), Some("user_1".to_string()), None, None, Metadata::new());

    let results = store.search("diabetes", None, 10);
    assert_eq!(results.len(), 1);
    assert!(results[0].content.contains("diabetes"));
}

#[test]
fn test_update() {
    let mut store = MemoryStore::new();
    let id = store.add("Original content".to_string(), Some("user_1".to_string()), None, None, Metadata::new());

    store.update(&id, Some("Updated content".to_string()), None);

    let memory = store.get(&id).unwrap();
    assert_eq!(memory.content, "Updated content");
}

#[test]
fn test_delete() {
    let mut store = MemoryStore::new();
    let id = store.add("Test memory".to_string(), Some("user_1".to_string()), None, None, Metadata::new());

    assert!(store.delete(&id));
    assert!(store.get(&id).is_none());
}

#[test]
fn test_medical_memory() {
    let mut store = MemoryStore::new();
    let patient_id = "patient_123";
    let agent_id = "medical_assistant";

    store.add(
        "Patient reports fever of 101°F for 2 days".to_string(),
        Some(patient_id.to_string()),
        Some(agent_id.to_string()),
        Some("session_2024_001".to_string()),
        Metadata::new(),
    );
    store.add(
        "Patient has history of type 2 diabetes".to_string(),
        Some(patient_id.to_string()),
        Some(agent_id.to_string()),
        Some("session_2024_001".to_string()),
        Metadata::new(),
    );

    let filters = MemoryFilters {
        user_id: Some(patient_id.to_string()),
        agent_id: Some(agent_id.to_string()),
        ..Default::default()
    };
    let memories = store.get_all(&filters, 100);
    assert_eq!(memories.len(), 2);
}

fn store_of(times: &[u128]) -> MemoryStore {
    let mut store = MemoryStore::new();
    for (i, time) in times.iter().enumerate() {
        store.add_as(
            format!("id-{}", i),
            *time,
            format!("memory {}", i),
            Some(if i % 2 == 0 { "even" } else { "odd" }.to_string()),
            None,
            None,
            Metadata::new(),
        );
    }
    store
}

fn names(found: Vec<&aura_nexus::memory_store::MemoryItem>) -> Vec<String> {
    found.iter().map(|memory| memory.id.clone()).collect()
}

#[test]
fn new_names_are_36_characters_long_and_differ() {
    let mut store = MemoryStore::new();
    let one = store.add("a".to_string(), None, None, None, Metadata::new());
    let other = store.add("a".to_string(), None, None, None, Metadata::new());
    assert_eq!(one.len(), 36);
    assert_eq!(other.len(), 36);
    assert_ne!(one, other);
    assert_eq!(store.count(), 2);
}

#[test]
fn session_is_noted_with_the_memory() {
    let mut store = MemoryStore::new();
    let mut notes = Metadata::new();
    notes.insert("topic".to_string(), MetaValue::Text("health".to_string()));
    notes.insert("user_id".to_string(), MetaValue::Text("somebody else".to_string()));
    let id = store.add(
        "text".to_string(),
        Some("user_1".to_string()),
        None,
        Some("run_7".to_string()),
        notes,
    );
    let memory = store.get(&id).unwrap();
    assert_eq!(memory.metadata.get("topic"), Some(&MetaValue::Text("health".to_string())));
    assert_eq!(memory.metadata.get("user_id"), Some(&MetaValue::Text("user_1".to_string())));
    assert_eq!(memory.metadata.get("run_id"), Some(&MetaValue::Text("run_7".to_string())));
    assert_eq!(memory.metadata.get("agent_id"), None);
    assert_eq!(memory.created_at, memory.updated_at);
    assert_eq!(memory.agent_id, None);
}

#[test]
fn newest_memories_come_first() {
    let store = store_of(&[10, 30, 20, 30, 5]);
    let found = store.get_all(&MemoryFilters::default(), 100);
    // memories of one age stay in the order in which they were added
    assert_eq!(names(found), vec!["id-1", "id-3", "id-2", "id-0", "id-4"]);
}

#[test]
fn limit_cuts_the_oldest() {
    let store = store_of(&[10, 30, 20, 30, 5]);
    assert_eq!(names(store.get_all(&MemoryFilters::default(), 2)), vec!["id-1", "id-3"]);
    assert!(store.get_all(&MemoryFilters::default(), 0).is_empty());
    assert_eq!(store.get_all(&MemoryFilters::default(), 5).len(), 5);
}

#[test]
fn filters_name_user_agent_and_run() {
    let mut store = MemoryStore::new();
    store.add_as("a".to_string(), 1, "x".to_string(), Some("u".to_string()), Some("g".to_string()), None, Metadata::new());
    store.add_as("b".to_string(), 2, "x".to_string(), Some("u".to_string()), None, Some("r".to_string()), Metadata::new());
    store.add_as("c".to_string(), 3, "x".to_string(), None, Some("g".to_string()), Some("r".to_string()), Metadata::new());
    let user = MemoryFilters { user_id: Some("u".to_string()), ..Default::default() };
    let agent = MemoryFilters { agent_id: Some("g".to_string()), ..Default::default() };
    let run = MemoryFilters { run_id: Some("r".to_string()), ..Default::default() };
    let both = MemoryFilters {
        user_id: Some("u".to_string()),
        run_id: Some("r".to_string()),
        ..Default::default()
    };
    assert_eq!(names(store.get_all(&user, 10)), vec!["b", "a"]);
    assert_eq!(names(store.get_all(&agent, 10)), vec!["c", "a"]);
    assert_eq!(names(store.get_all(&run, 10)), vec!["c", "b"]);
    assert_eq!(names(store.get_all(&both, 10)), vec!["b"]);
    assert_eq!(store.count_filtered(&user), 2);
    assert_eq!(store.count_filtered(&both), 1);
    assert_eq!(store.count_filtered(&MemoryFilters::default()), 3);
}

#[test]
fn filters_ask_for_what_is_noted() {
    let mut store = MemoryStore::new();
    let mut first = Metadata::new();
    first.insert("doc".to_string(), MetaValue::Text("guide".to_string()));
    first.insert("page".to_string(), MetaValue::Unsigned(3));
    let mut second = Metadata::new();
    second.insert("doc".to_string(), MetaValue::Text("guide".to_string()));
    second.insert("page".to_string(), MetaValue::Unsigned(4));
    store.add_as("a".to_string(), 1, "x".to_string(), None, None, None, first);
    store.add_as("b".to_string(), 2, "x".to_string(), None, None, None, second);
    let mut wanted = Metadata::new();
    wanted.insert("doc".to_string(), MetaValue::Text("guide".to_string()));
    let of_guide = MemoryFilters { metadata: wanted, ..Default::default() };
    assert_eq!(store.count_filtered(&of_guide), 2);
    let mut wanted = Metadata::new();
    wanted.insert("page".to_string(), MetaValue::Unsigned(4));
    let page_four = MemoryFilters { metadata: wanted, ..Default::default() };
    assert_eq!(names(store.get_all(&page_four, 10)), vec!["b"]);
    let mut wanted = Metadata::new();
    wanted.insert("page".to_string(), MetaValue::Signed(4));
    let other_kind = MemoryFilters { metadata: wanted, ..Default::default() };
    assert_eq!(store.count_filtered(&other_kind), 0);
    let mut wanted = Metadata::new();
    wanted.insert("missing".to_string(), MetaValue::Null);
    let missing = MemoryFilters { metadata: wanted, ..Default::default() };
    assert_eq!(store.count_filtered(&missing), 0);
}

#[test]
fn search_does_not_tell_capital_from_small_letters() {
    let mut store = MemoryStore::new();
    store.add_as("a".to_string(), 1, "Patient has DIABETES".to_string(), Some("u".to_string()), None, None, Metadata::new());
    store.add_as("b".to_string(), 2, "Nothing here".to_string(), Some("u".to_string()), None, None, Metadata::new());
    store.add_as("c".to_string(), 3, "diabetes again".to_string(), Some("v".to_string()), None, None, Metadata::new());
    assert_eq!(names(store.search("Diabetes", None, 10)), vec!["c", "a"]);
    assert_eq!(names(store.search("Diabetes", None, 1)), vec!["c"]);
    let of_u = MemoryFilters { user_id: Some("u".to_string()), ..Default::default() };
    assert_eq!(names(store.search("diaBETes", Some(&of_u), 10)), vec!["a"]);
    assert_eq!(names(store.search("", None, 10)), vec!["c", "b", "a"]);
    assert!(store.search("absent", None, 10).is_empty());
}

#[test]
fn texts_are_searched_for_texts() {
    assert!(contains_text("hello world", "o w"));
    assert!(contains_text("hello", ""));
    assert!(contains_text("", ""));
    assert!(contains_text("aab", "ab"));
    assert!(!contains_text("hello", "hello!"));
    assert!(!contains_text("", "a"));
    assert!(!contains_text("abab", "bb"));
}

#[test]
fn update_changes_text_notes_and_time() {
    let mut store = store_of(&[10, 20]);
    let mut more = Metadata::new();
    more.insert("user_id".to_string(), MetaValue::Text("changed".to_string()));
    more.insert("seen".to_string(), MetaValue::Bool(true));
    assert!(store.update_at("id-0", Some("new text".to_string()), Some(more), 99));
    let memory = store.get("id-0").unwrap();
    assert_eq!(memory.content, "new text");
    assert_eq!(memory.created_at, 10);
    assert_eq!(memory.updated_at, 99);
    assert_eq!(memory.metadata.get("seen"), Some(&MetaValue::Bool(true)));
    assert_eq!(memory.metadata.get("user_id"), Some(&MetaValue::Text("changed".to_string())));
    assert_eq!(memory.user_id, Some("even".to_string()));
    // the order of the memories is as it was
    assert_eq!(names(store.get_all(&MemoryFilters::default(), 10)), vec!["id-1", "id-0"]);
    assert!(store.update_at("id-1", None, None, 100));
    assert_eq!(store.get("id-1").unwrap().content, "memory 1");
    assert_eq!(store.get("id-1").unwrap().updated_at, 100);
}

#[test]
fn update_of_an_unknown_memory_changes_nothing() {
    let mut store = store_of(&[10]);
    assert!(!store.update("nobody", Some("x".to_string()), None));
    assert!(!store.update_at("nobody", Some("x".to_string()), None, 5));
    assert_eq!(store.count(), 1);
    assert_eq!(store.get("id-0").unwrap().content, "memory 0");
}

#[test]
fn delete_of_an_unknown_memory_changes_nothing() {
    let mut store = store_of(&[10, 20]);
    assert!(!store.delete("nobody"));
    assert_eq!(store.count(), 2);
    assert!(store.delete("id-0"));
    assert!(!store.delete("id-0"));
    assert_eq!(store.count(), 1);
}

#[test]
fn delete_all_removes_what_is_asked_for() {
    let mut store = store_of(&[1, 2, 3, 4, 5]);
    let even = MemoryFilters { user_id: Some("even".to_string()), ..Default::default() };
    assert_eq!(store.delete_all(&even), 3);
    assert_eq!(store.count(), 2);
    assert_eq!(names(store.get_all(&MemoryFilters::default(), 10)), vec!["id-3", "id-1"]);
    assert_eq!(store.delete_all(&even), 0);
    assert_eq!(store.delete_all(&MemoryFilters::default()), 2);
    assert_eq!(store.count(), 0);
}

#[test]
fn memory_of_the_same_name_gives_way() {
    let mut store = store_of(&[1, 2]);
    store.add_as("id-0".to_string(), 3, "replaced".to_string(), None, None, None, Metadata::new());
    assert_eq!(store.count(), 2);
    assert_eq!(store.get("id-0").unwrap().content, "replaced");
    assert_eq!(names(store.get_all(&MemoryFilters::default(), 10)), vec!["id-0", "id-1"]);
}

#[test]
fn empty_store_counts_nothing() {
    let store = MemoryStore::default();
    assert_eq!(store.count(), 0);
    assert_eq!(store.count_filtered(&MemoryFilters::default()), 0);
    assert!(store.get("x").is_none());
    assert!(store.get_all(&MemoryFilters::default(), 10).is_empty());
}

#[test]
fn later_notes_replace_earlier_ones() {
    let mut notes = Metadata::new();
    assert_eq!(notes.get("k"), None);
    notes.insert("k".to_string(), MetaValue::Unsigned(1));
    notes.insert("other".to_string(), MetaValue::Null);
    notes.insert("k".to_string(), MetaValue::Unsigned(2));
    assert_eq!(notes.get("k"), Some(&MetaValue::Unsigned(2)));
    assert_eq!(notes.get("other"), Some(&MetaValue::Null));
    let mut more = Metadata::default();
    more.insert("other".to_string(), MetaValue::Other("[1,2]".to_string()));
    notes.extend(&more);
    assert_eq!(notes.get("other"), Some(&MetaValue::Other("[1,2]".to_string())));
    assert_eq!(notes.get("k"), Some(&MetaValue::Unsigned(2)));
    let copy = notes.duplicate();
    assert!(copy.covers(&notes) && notes.covers(&copy));
    assert!(notes.covers(&more));
    assert!(!more.covers(&notes));
    assert!(notes.covers(&Metadata::new()));
}

#[test]
fn values_are_the_same_only_in_kind_and_content() {
    let text = MetaValue::Text("1".to_string());
    assert!(text.same(&text.clone()));
    assert!(!text.same(&MetaValue::Other("1".to_string())));
    assert!(!MetaValue::Unsigned(1).same(&MetaValue::Signed(1)));
    assert!(MetaValue::Signed(-1).same(&MetaValue::Signed(-1)));
    assert!(!MetaValue::Bool(true).same(&MetaValue::Bool(false)));
    assert!(MetaValue::Null.same(&MetaValue::Null));
}
