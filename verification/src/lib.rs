//! Verified core of a JavaScript linter plugin: code-path segment graphs,
//! fork contexts, literal decoding and the decisions of its rules.

pub mod code_path_segment;
pub mod text;
pub mod id_generator;
pub mod fork_context;
pub mod code_path;
pub mod ast_helpers;
pub mod conf;
pub mod pattern;
pub mod analyzer;
pub mod directive_comments;
pub mod debug_helpers;
pub mod code_path_analyzer;
pub mod syntax_tree;
pub mod all_comments;
pub mod rules;
pub mod configs;
