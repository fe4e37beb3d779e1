//! The logic of a desktop assistant that talks through a language model
//! on the user's own machine.
//!
//! At its heart stands the inference worker: [`engine`] turns one prompt
//! into one text by telling a model runtime what to do next, and [`worker`]
//! lets any number of callers share one engine, one request at a time and
//! in the order of arrival. Around it stand the conversation ([`chat`],
//! [`memory`], [`mode`]), the store of memories and documents
//! ([`memory_store`], [`metadata`], [`rag_example`], [`text_chunker`],
//! [`segment`]) and the list of model files ([`models`]).
//!
//! Nothing here reads a file, starts a thread or calls a model: whoever
//! uses the library does that, and hands it plain values.

mod ids;

pub mod chat;
pub mod clock;
pub mod engine;
pub mod error;
pub mod memory;
pub mod memory_store;
pub mod metadata;
pub mod mode;
pub mod models;
pub mod rag_example;
pub mod segment;
pub mod text;
pub mod text_chunker;
pub mod worker;
