//! Verified engine for inspecting delimiter-framed binary streams.
//!
//! The library turns a growing byte buffer into complete framed messages,
//! classifies each message against label rules, checks expectation rules,
//! and renders byte ranges for display. Parsing of operator input (hex byte
//! strings and index ranges) is verified down to character level.

pub mod framing;
pub mod hex_codec;
pub mod history;
pub mod labels;
pub mod ranges;
pub mod render;
pub mod suspects;
