//! Version history for Kdenlive projects: the project model, the parser that
//! reads a `.kdenlive` document into it, the differ that compares two
//! projects, the renderer that describes a diff in sentences, and the
//! wording and decisions of the commands around them.

pub mod text;
pub mod model;
pub mod keys;
pub mod seqs;
pub mod differ;
pub mod render;
pub mod term;
pub mod xml;
pub mod xml_parser;
pub mod git_backend;
pub mod cli;
pub mod watcher;
