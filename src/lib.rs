//! Confusable-aware pattern stamping: finds a short pattern as a repeated,
//! case-insensitive subsequence of a text and reports which ranges of the
//! text (in UTF-16 code units) to hide so that only the matched pattern
//! characters stay visible.
pub mod confusable;
pub mod invocation;
pub mod laws;
pub mod spans;
pub mod units;

pub use invocation::split_invocation;
pub use spans::{hide_spans, spoilerify, HideSpan};
