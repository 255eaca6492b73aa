//! Formatting of JSON and JSONC documents: configuration resolution, the
//! generator that turns a parsed document into a layout instruction tree,
//! and the rules around it (trailing commas, comments, ignore directives).
mod ast;
mod builder;
mod config;
mod format;
mod generate;
mod ir;
mod lines;
mod render;
mod resolve;
mod token_finder;

pub use ast::{
    Array, Comment, CommentKind, CommentMap, Document, Object, ObjectProp, PropName, Range, Token,
    TokenKind, Value,
};
pub use builder::ConfigurationBuilder;
pub use config::{
    ConfigKeyMap, ConfigKeyValue, Configuration, ConfigurationDiagnostic, GlobalConfiguration,
    NewLineKind, ResolveConfigurationResult, TrailingCommaKind,
};
pub use format::{format_result, is_jsonc_file, strip_bom};
pub use generate::{generate, should_have_comma};
pub use ir::{Ir, LinesSpan, SeparatedValue, Signal};
pub use lines::LineIndex;
pub use render::{format_text, syntax_error_message};
pub use resolve::resolve_config;
pub use token_finder::TokenFinder;
