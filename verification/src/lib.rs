//! Core of a syntax-highlight recomputation engine for a text editor.
//!
//! The pipeline: buffer text is parsed (by an external parser) into a
//! syntax tree; the tree is walked in level order; leaf tokens are
//! classified into highlight groups; each leaf's span is decomposed into
//! per-line column ranges; and one paint instruction is produced per
//! range. A small state machine drives one full recompute pass per
//! editor change notification.

pub mod classify;
pub mod emit;
pub mod parse;
pub mod reactive;
pub mod span;
pub mod tree;

pub use classify::HighlightGroup;
pub use emit::PaintInstruction;
pub use span::ColEnd;
pub use span::ColumnRange;
pub use span::Position;
pub use tree::NodeData;
pub use tree::SyntaxTree;
