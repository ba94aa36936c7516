//! A verified single-line text-editing core: a UTF-8 text buffer addressed
//! by byte offsets, a selection that always sits on scalar-value boundaries,
//! Unicode-safe editing commands, word segmentation, and the multi-click
//! selection-escalation state machine.

pub mod editing;
pub mod segment;
pub mod unicode;
