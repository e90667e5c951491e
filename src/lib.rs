//! Two-level text diff: documents are aligned sentence by sentence, and
//! sentences that are similar but not identical are aligned word by word.
pub mod align;
pub mod parse;
pub mod compare;
