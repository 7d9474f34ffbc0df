//! Progressive-disclosure indexing of markdown and text documents:
//! stable content-hash IDs, heading-based sectioning, snippets, token
//! budgeting, and the rendering and bookkeeping rules of the `mdpeek` tool.

pub mod text;
pub mod paths;
pub mod calendar;
pub mod id;
pub mod token;
pub mod snippet;
pub mod parse;
pub mod db;
pub mod show;
pub mod index;
pub mod outline;
pub mod toc;
pub mod search;
pub mod sync;
pub mod repo;
pub mod cache;
pub mod ignore_cmd;
pub mod walk;
