//! Formatting facilities for WDL documents.

pub mod call;
pub mod comments;
pub mod config;
pub mod display;
pub mod element;
pub mod expr;
pub mod formatter;
pub mod import;
pub mod imports;
pub mod post;
pub mod pre;
pub mod state;
pub mod syntax;
pub mod token;
pub mod v1;
pub mod workflow;
