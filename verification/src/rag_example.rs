//! Documents in the store: put in chunk by chunk, and found again by what
//! they say.

use crate::memory_store::{
    at_most, newest_first, opt_view, selected, without, FilterModel, ItemModel, MemoryFilters,
    MemoryStore,
};
use crate::metadata::{MetaModel, MetaValue, Metadata};
use crate::models::{decimal, decimal_text};
use crate::segment::{lemma_views_push, views};
use crate::text::lowercase;
use crate::text_chunker::{chunks_of, ChunkingConfig, TextChunker};
use vstd::prelude::*;
use vstd::string::*;

verus! {

/// The size of the chunks into which a document is cut.
pub const DOCUMENT_CHUNK_SIZE: usize = 512;

/// The bytes of a chunk that the next one may repeat.
pub const DOCUMENT_CHUNK_OVERLAP: usize = 50;

/// The chunks that an answer is drawn from at most.
pub const ANSWER_CHUNKS: usize = 3;

/// The chunks into which a document is cut.
pub open spec fn document_chunks(document: Seq<char>) -> Option<Seq<Seq<char>>> {
    chunks_of(DOCUMENT_CHUNK_SIZE as nat, DOCUMENT_CHUNK_OVERLAP as nat, "\n\n"@, document)
}

/// The chunker that cuts documents.
pub fn document_chunker() -> (r: TextChunker)
    ensures
        r.size() == DOCUMENT_CHUNK_SIZE,
        r.overlap() == DOCUMENT_CHUNK_OVERLAP,
        r.separator() == "\n\n"@,
        forall|document: Seq<char>| #[trigger] r.chunks(document) == document_chunks(document),
{
    let usual = ChunkingConfig::default();
    TextChunker::with_config(
        ChunkingConfig {
            chunk_size: DOCUMENT_CHUNK_SIZE,
            chunk_overlap: DOCUMENT_CHUNK_OVERLAP,
            paragraph_separator: usual.paragraph_separator,
            sentence_separator: usual.sentence_separator,
            min_chunk_size: usual.min_chunk_size,
        },
    )
}

/// What is noted about chunk `index` of the `count` chunks of a document.
pub open spec fn chunk_notes(doc_id: Seq<char>, index: nat, count: nat) -> Map<
    Seq<char>,
    MetaModel,
> {
    Map::<Seq<char>, MetaModel>::empty().insert("doc_id"@, MetaModel::Text(doc_id)).insert(
        "chunk_index"@,
        MetaModel::Unsigned(index as u64),
    ).insert("chunk_count"@, MetaModel::Unsigned(count as u64))
}

/// A chunk of a document as a memory of `user_id`, named `id` and made at
/// `time`.
pub open spec fn chunk_memory(
    chunk: Seq<char>,
    index: nat,
    count: nat,
    doc_id: Seq<char>,
    user_id: Seq<char>,
    id: Seq<char>,
    time: u128,
) -> ItemModel {
    ItemModel {
        id,
        content: chunk,
        user_id: Some(user_id),
        agent_id: None,
        run_id: None,
        metadata: chunk_notes(doc_id, index, count).insert("user_id"@, MetaModel::Text(user_id)),
        created_at: time,
        updated_at: time,
    }
}

/// The store after the first `done` of `chunks` were put in, one after the
/// other, under the names `ids` and at the times `times`.
pub open spec fn ingested(
    before: Seq<ItemModel>,
    chunks: Seq<Seq<char>>,
    doc_id: Seq<char>,
    user_id: Seq<char>,
    ids: Seq<Seq<char>>,
    times: Seq<u128>,
    done: nat,
) -> Seq<ItemModel>
    decreases done,
{
    if done == 0 {
        before
    } else {
        let at = (done - 1) as nat;
        without(ingested(before, chunks, doc_id, user_id, ids, times, at), ids[at as int]).push(
            chunk_memory(
                chunks[at as int],
                at,
                chunks.len(),
                doc_id,
                user_id,
                ids[at as int],
                times[at as int],
            ),
        )
    }
}

/// Cuts `document` into chunks and puts each into the store as a memory of
/// `user_id`, with the document's name, the chunk's number and the number
/// of chunks noted. Returns the names of the memories, in the order of the
/// chunks.
pub fn ingest_document(document: &str, doc_id: &str, user_id: &str, store: &mut MemoryStore) -> (ids:
    Vec<String>)
    requires
        old(store).wf(),
        document_chunks(document@) is Some,
    ensures
        final(store).wf(),
        ids@.len() == document_chunks(document@)->0.len(),
        exists|times: Seq<u128>|
            times.len() == ids@.len() && final(store)@ == #[trigger] ingested(
                old(store)@,
                document_chunks(document@)->0,
                doc_id@,
                user_id@,
                views(ids@),
                times,
                ids@.len(),
            ),
{
    let chunker = document_chunker();
    let chunks = chunker.chunk_with_metadata(document);
    let ghost texts = document_chunks(document@)->0;
    let ghost before = store@;
    let chunk_count = chunks.len();
    let mut ids: Vec<String> = Vec::new();
    let ghost mut times: Seq<u128> = Seq::empty();
    let mut i: usize = 0;
    assert(views(ids@) =~= Seq::<Seq<char>>::empty());
    while i < chunk_count
        invariant
            store.wf(),
            chunk_count == chunks.len(),
            chunk_count == texts.len(),
            i <= chunk_count,
            ids.len() == i,
            times.len() == i,
            forall|k: int|
                0 <= k < chunks@.len() ==> (#[trigger] chunks@[k]).0@ == texts[k] && chunks@[k].1
                    == k,
            store@ == ingested(before, texts, doc_id@, user_id@, views(ids@), times, i as nat),
        decreases chunk_count - i,
    {
        let chunk = &chunks[i];
        let mut metadata = Metadata::new();
        metadata.insert("doc_id".to_owned(), MetaValue::Text(doc_id.to_owned()));
        metadata.insert("chunk_index".to_owned(), MetaValue::Unsigned(chunk.1 as u64));
        metadata.insert("chunk_count".to_owned(), MetaValue::Unsigned(chunk_count as u64));
        let ghost held = store@;
        let ghost names = views(ids@);
        let ghost clock = times;
        let id = store.add(chunk.0.clone(), Some(user_id.to_owned()), None, None, metadata);
        proof {
            times = times.push(store@.last().created_at);
            lemma_views_push(ids@, id);
            lemma_ingested_more(
                before,
                texts,
                doc_id@,
                user_id@,
                names,
                clock,
                names.push(id@),
                times,
                i as nat,
            );
        }
        ids.push(id);
        i = i + 1;
    }
    ids
}

/// Puts `document` into the store as [`ingest_document`] does, if it can be
/// cut into chunks, and leaves the store as it is if it cannot.
pub fn try_ingest_document(document: &str, doc_id: &str, user_id: &str, store: &mut MemoryStore) -> (r:
    Option<Vec<String>>)
    requires
        old(store).wf(),
    ensures
        final(store).wf(),
        r is Some == document_chunks(document@) is Some,
        r is None ==> final(store)@ == old(store)@,
        r matches Some(ids) ==> ids@.len() == document_chunks(document@)->0.len() && exists|
            times: Seq<u128>,
        |
            times.len() == ids@.len() && final(store)@ == #[trigger] ingested(
                old(store)@,
                document_chunks(document@)->0,
                doc_id@,
                user_id@,
                views(ids@),
                times,
                ids@.len(),
            ),
{
    if document_chunker().try_chunk_text(document).is_some() {
        Some(ingest_document(document, doc_id, user_id, store))
    } else {
        None
    }
}

/// What was put in stays as it was when more names and times are known.
pub proof fn lemma_ingested_more(
    before: Seq<ItemModel>,
    chunks: Seq<Seq<char>>,
    doc_id: Seq<char>,
    user_id: Seq<char>,
    ids: Seq<Seq<char>>,
    times: Seq<u128>,
    more_ids: Seq<Seq<char>>,
    more_times: Seq<u128>,
    done: nat,
)
    requires
        done <= ids.len() <= more_ids.len(),
        done <= times.len() <= more_times.len(),
        forall|k: int| 0 <= k < done ==> ids[k] == more_ids[k] && times[k] == more_times[k],
    ensures
        ingested(before, chunks, doc_id, user_id, ids, times, done) == ingested(
            before,
            chunks,
            doc_id,
            user_id,
            more_ids,
            more_times,
            done,
        ),
    decreases done,
{
    if done > 0 {
        lemma_ingested_more(
            before,
            chunks,
            doc_id,
            user_id,
            ids,
            times,
            more_ids,
            more_times,
            (done - 1) as nat,
        );
    }
}

/// The texts of `found`, one for one.
pub open spec fn contents(found: Seq<ItemModel>) -> Seq<Seq<char>> {
    Seq::new(found.len(), |i: int| found[i].content)
}

/// The filters that ask for the memories of one user.
pub open spec fn of_user(user_id: Seq<char>) -> FilterModel {
    FilterModel { user_id: Some(user_id), ..FilterModel::any() }
}

/// What a query finds among the memories of `user_id`: the texts of those
/// that say it, the newest first, `top_k` at most.
pub open spec fn retrieved(
    store: Seq<ItemModel>,
    query: Seq<char>,
    user_id: Seq<char>,
    top_k: nat,
) -> Seq<Seq<char>> {
    contents(
        at_most(newest_first(selected(store, of_user(user_id), Some(lowercase(query)))), top_k),
    )
}

/// Finds the chunks of `user_id` that say `query`.
pub fn retrieve_chunks(query: &str, user_id: &str, store: &MemoryStore, top_k: usize) -> (found:
    Vec<String>)
    ensures
        views(found@) == retrieved(store@, query@, user_id@, top_k as nat),
{
    let filters = MemoryFilters {
        user_id: Some(user_id.to_owned()),
        agent_id: None,
        run_id: None,
        metadata: Metadata::new(),
    };
    let results = store.search(query, Some(&filters), top_k);
    let ghost all = crate::memory_store::found_views(results@);
    let mut found: Vec<String> = Vec::new();
    let mut i: usize = 0;
    assert(views(found@) =~= contents(all).take(0));
    while i < results.len()
        invariant
            i <= results.len(),
            all == crate::memory_store::found_views(results@),
            views(found@) == contents(all).take(i as int),
        decreases results.len() - i,
    {
        let text = results[i].content.clone();
        proof {
            lemma_views_push(found@, text);
            assert(all[i as int] == results@[i as int]@);
        }
        found.push(text);
        assert(views(found@) =~= contents(all).take(i + 1));
        i = i + 1;
    }
    assert(contents(all).take(results.len() as int) == contents(all));
    found
}

/// What is said of a question: that nothing is known, where no chunk says
/// the question, else how many chunks were found.
pub open spec fn answer(found: nat) -> Seq<char> {
    if found == 0 {
        "I don't have enough information to answer that."@
    } else {
        "Context retrieved ("@ + decimal(found) + " chunks). Ready for LLM."@
    }
}

/// Looks for up to three chunks of `user_id` that say `question`, and says
/// what came of it.
pub fn answer_question(question: &str, user_id: &str, store: &MemoryStore) -> (r: String)
    ensures
        r@ == answer(retrieved(store@, question@, user_id@, ANSWER_CHUNKS as nat).len()),
{
    let context_chunks = retrieve_chunks(question, user_id, store, ANSWER_CHUNKS);
    if context_chunks.len() == 0 {
        return "I don't have enough information to answer that.".to_owned();
    }
    let mut reply = "Context retrieved (".to_owned();
    reply.append(decimal_text(context_chunks.len() as u64).as_str());
    reply.append(" chunks). Ready for LLM.");
    reply
}

} // verus!
