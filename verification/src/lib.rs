//! Merge engine for Sysmon event-filtering configuration fragments.
//!
//! A configuration splits into per-event-type fragment files; this library
//! combines any set of them into one semantically correct combined document.
//! `parse` reads one fragment into a structural document; `document` holds
//! that structure, its three wrapper invariants and the validator; the
//! `accumulate` fold deduplicates rules per (event kind, polarity) and keeps
//! rule sets with different group relations apart; `emit` turns the folded
//! state into a valid document and renders it deterministically; `driver`
//! orchestrates validation, folding, emission and the post-merge validity
//! check; `laws` proves the engine's general properties: idempotence,
//! order-independence of retained content, dedup uniqueness and
//! relation-conflict preservation.
pub mod model;
pub mod document;
pub mod accumulate;
pub mod emit;
pub mod laws;
pub mod driver;
pub mod parse;
