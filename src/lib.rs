//! Verified core of a local-first personal information manager.
//!
//! Each store keeps its entities in memory under a well-formedness invariant
//! that every operation preserves: knowledge bases with their page trees,
//! blocks and saved versions; card boxes with card counters and full-text
//! rows; tasks and projects; habits with one record per date; the password
//! vault and its schema migration; AI conversations; books; the timeline.
//! Alongside them: the vault's cryptography, card previews from HTML, and
//! data URL and labelled-field helpers.
use vstd::prelude::*;

pub mod ai;
pub mod books;
pub mod cardbox;
pub mod chars;
pub mod clock;
pub mod crypto;
pub mod data_url;
pub mod error;
pub mod habits;
pub mod knowledge;
pub mod passwords;
pub mod preview;
pub mod tasks;
pub mod timeline;

verus! {

} // verus!
