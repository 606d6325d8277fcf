//! The request logic of a Julia language server: positions, edits, names,
//! tokens and diagnostics, as functions from plain values to plain values.

pub mod analysis_thread;
pub mod call_hierarchy;
pub mod calls;
pub mod capabilities;
pub mod chars;
pub mod code_action;
pub mod completion;
pub mod config;
pub mod cross_file;
pub mod definition;
pub mod diagnostics;
pub mod document_link;
pub mod documentation;
pub mod edits;
pub mod environment_diagnostics;
pub mod folding;
pub mod format;
pub mod graph_diagnostics;
pub mod harvest;
pub mod harvester;
pub mod hover;
pub mod index;
pub mod lint;
pub mod order;
pub mod paths;
pub mod progress;
pub mod project_code_action;
pub mod project_navigation;
pub mod project_updates;
pub mod publish;
pub mod pull_diagnostics;
pub mod read_jobs;
pub mod references;
pub mod rename;
pub mod rename_files;
pub mod render;
pub mod resolve;
pub mod result_id;
pub mod search;
pub mod selection;
pub mod semantic;
pub mod semantic_tokens;
pub mod server;
pub mod signature_help;
pub mod sorting;
pub mod strings;
pub mod symbols;
pub mod text;
pub mod tree;
pub mod validity;
