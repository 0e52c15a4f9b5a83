//! A link-rewriting engine for chat messages.
//!
//! Messages that contain links matching a configured pattern are rewritten so
//! that link previews render correctly: a social-media domain can be swapped
//! for an embed-friendly mirror, or a short redirect link replaced by its
//! final, query-stripped destination.  The engine receives a plain message
//! string, a parsed configuration, and the outcomes of any link resolutions,
//! and returns the replacement string or a "no match" outcome.

pub mod replacer;
pub mod replacer_link_follower;
pub mod replacer_regex;
pub mod rx;
pub mod text;
