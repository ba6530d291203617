//! Evaluation facilities for WDL: types, values, task inputs, and task
//! execution backends.

pub mod backend;
pub mod config;
pub mod path;
pub mod types;
pub mod url;
pub mod eval;
pub mod inputs;
pub mod json;
pub mod value;
pub mod stdlib;
