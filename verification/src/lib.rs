//! Verified core logic for a handful of personal command-line tools: a bank
//! statement categoriser, a git branch assistant, a JSONL log viewer, a
//! Messages log reader, an IntelliJ project patcher and two small helpers.
//!
//! Everything here computes on plain values; reading files, running
//! processes and drawing terminals is left to the programs around it.

pub mod text;
pub mod category;
pub mod amount;
pub mod budget;
pub mod statement;
pub mod pattern;
pub mod mapping;
pub mod matcher;
pub mod logs;
pub mod imessage;
pub mod git;
pub mod xmlpath;
pub mod config;
pub mod output;
pub mod comments;
pub mod marks;
pub mod xmlpatch;
pub mod pickers;
pub mod reports;
pub mod logview;
pub mod dirty;
pub mod xmltext;
pub mod webstate;
