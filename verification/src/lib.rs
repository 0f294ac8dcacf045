//! Core logic of a local knowledge-base assistant: document chunking, the
//! managed layout of the source folder, model selection from the machine's
//! capabilities, the Ollama stream protocol, and the retrieval-augmented chat
//! prompt. Everything here is verified with Verus; the desktop shell, HTTP
//! and file-system work live outside the library.
pub mod text;
pub mod chunker;
pub mod scanner;
pub mod hardware;
pub mod models;
pub mod ollama;
pub mod config;
pub mod commands;
pub mod vectordb;
pub mod update;
