//! A configuration-language engine.
//!
//! A statement tree is evaluated into a store of resolved values: variables are expanded
//! with cycle detection, `{{ }}` integer expressions evaluated, escaped braces kept literal,
//! keyword handlers run with category-scoped precedence, and special categories instantiated.
//! An editable document model mirrors the source files so that edits can be written back,
//! rewriting only the files that changed.
pub mod text;
pub mod table;
pub mod error;
pub mod escaping;
pub mod variables;
pub mod expressions;
pub mod evaluation;
pub mod handlers;
pub mod calls;
pub mod features;
pub mod types;
pub mod special_categories;
pub mod evaluator;
pub mod document;
pub mod mutation;
pub mod multi_file;
