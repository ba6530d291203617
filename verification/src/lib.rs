//! Formatting, evaluation, and corpus-testing facilities for the Workflow
//! Description Language (WDL), with their behaviour stated as contracts.

pub mod engine;
pub mod format;
pub mod gauntlet;
pub mod text;
