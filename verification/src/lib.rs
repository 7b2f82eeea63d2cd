//! Removal of marked editing commands from brace-structured text documents.
//!
//! The library scans a document for whitespace-tolerant command invocations
//! such as `\anew{...}`, pairs each recognized opening marker with its true
//! closing brace across nested groups, suppresses recognition inside line
//! comments, and produces a list of character spans whose removal strips the
//! markers while keeping the wrapped content.

pub mod apply;
pub mod pattern;
pub mod render;
pub mod scan;
pub mod span;
pub mod text;
