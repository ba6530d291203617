//! The corpus-testing facilities: repositories of WDL documents pinned to a
//! commit.

pub mod config;
pub mod repository;
