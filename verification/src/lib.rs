//! An interactive task launcher's core: loading a task list from a YAML
//! document, fuzzy-filtering it against a query, and tracking the selection.

pub mod app;
pub mod config;
pub mod definition;
pub mod document;
pub mod matcher;
pub mod search;
pub mod sorted;
pub mod text;
