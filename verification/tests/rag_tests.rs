use aura_nexus::memory_store::{MemoryFilters, MemoryStore};
use aura_nexus::metadata::MetaValue;
use aura_nexus::rag_example::{
    answer_question, document_chunker, ingest_document, retrieve_chunks, try_ingest_document,
};

#[test]
fn test_ingest_and_retrieve() {
    let mut store = MemoryStore::new();
    let user_id = "test_user";

    let document = "This is a test document. It has multiple sentences. We will chunk it and store it.";

    let chunk_ids = ingest_document(document, "test_doc", user_id, &mut store);
    assert!(!chunk_ids.is_empty());

    let results = retrieve_chunks("test document", user_id, &store, 5);
    assert!(!results.is_empty());
}

#[test]
fn every_chunk_is_stored_with_its_number() {
    let mut store = MemoryStore::new();
    let paragraph = "Type 2 diabetes is a chronic condition. ".repeat(12);
    let document = format!("{}\n\n{}\n\n{}", paragraph, paragraph, paragraph);
    let chunks = document_chunker().chunk_text(&document);
    assert!(chunks.len() > 1);
    let ids = ingest_document(&document, "guide", "user_1", &mut store);
    assert_eq!(ids.len(), chunks.len());
    assert_eq!(store.count(), chunks.len());
    for (i, id) in ids.iter().enumerate() {
        let memory = store.get(id).unwrap();
        assert_eq!(memory.content, chunks[i]);
        assert_eq!(memory.user_id, Some("user_1".to_string()));
        assert_eq!(memory.agent_id, None);
        assert_eq!(memory.metadata.get("doc_id"), Some(&MetaValue::Text("guide".to_string())));
        assert_eq!(memory.metadata.get("chunk_index"), Some(&MetaValue::Unsigned(i as u64)));
        assert_eq!(
            memory.metadata.get("chunk_count"),
            Some(&MetaValue::Unsigned(chunks.len() as u64))
        );
        assert_eq!(memory.metadata.get("user_id"), Some(&MetaValue::Text("user_1".to_string())));
    }
}

#[test]
fn chunks_of_other_users_are_not_found() {
    let mut store = MemoryStore::new();
    ingest_document("Alpha is the first letter.", "greek", "ann", &mut store);
    ingest_document("Alpha Centauri is a star.", "stars", "bob", &mut store);
    assert_eq!(retrieve_chunks("alpha", "ann", &store, 5), vec!["Alpha is the first letter."]);
    assert_eq!(retrieve_chunks("ALPHA", "bob", &store, 5), vec!["Alpha Centauri is a star."]);
    assert!(retrieve_chunks("alpha", "carl", &store, 5).is_empty());
    assert!(retrieve_chunks("alpha", "ann", &store, 0).is_empty());
    assert_eq!(store.count_filtered(&MemoryFilters::default()), 2);
}

#[test]
fn question_without_context_gets_no_answer() {
    let store = MemoryStore::new();
    assert_eq!(
        answer_question("What are the symptoms?", "user_1", &store),
        "I don't have enough information to answer that."
    );
}

#[test]
fn question_with_context_counts_its_chunks() {
    let mut store = MemoryStore::new();
    for i in 0..5 {
        ingest_document(&format!("Symptoms, part {}.", i), "guide", "user_1", &mut store);
    }
    ingest_document("Something else.", "guide", "user_1", &mut store);
    assert_eq!(
        answer_question("symptoms", "user_1", &store),
        "Context retrieved (3 chunks). Ready for LLM."
    );
    assert_eq!(
        answer_question("something", "user_1", &store),
        "Context retrieved (1 chunks). Ready for LLM."
    );
}

#[test]
fn document_that_cannot_be_cut_is_left_out() {
    let mut store = MemoryStore::new();
    // Sentences of two-byte letters: an overlap of 50 bytes out of 513
    // begins inside a letter.
    let sentence = format!("{}.", "é".repeat(255));
    let second = format!("{}.", "é".repeat(300));
    let document = format!("{}{}", sentence, second);
    assert_eq!(try_ingest_document(&document, "doc", "user_1", &mut store), None);
    assert_eq!(store.count(), 0);
    let ids = try_ingest_document("Plain text. In two sentences.", "doc", "user_1", &mut store);
    assert_eq!(ids.unwrap().len(), 1);
    assert_eq!(store.count(), 1);
}
