//! Compile-time shader module loading.
//!
//! A shader is split over files that name each other with `#import` and
//! `#export` lines. Given the file that asks for a module and the reference
//! it uses, the library resolves the reference, reads every module that
//! imports lead to, merges their bodies into one text with every module
//! after the modules it imports, validates what is imported against what is
//! exported, and hands back the declarations for the caller.
//!
//! The steps, each in its module: [`path`] resolves references, [`directive`]
//! and [`parse`] read directive lines, [`loader`] walks the imports and
//! builds the [`graph`], [`sources`] drives the loader from files held in
//! memory, [`flatten`] merges, [`locate`] maps offsets of the merged text
//! back to files, [`validate`] collects the findings, [`emit`] makes the
//! declarations and [`report`] words the messages. [`invocation`] finds the
//! asking file by its text, and [`laws`] holds what is proved of all of
//! them together.

pub mod directive;
pub mod emit;
pub mod flatten;
pub mod graph;
pub mod invocation;
pub mod laws;
pub mod loader;
pub mod locate;
pub mod parse;
pub mod path;
pub mod report;
pub mod sources;
pub mod text;
pub mod validate;
