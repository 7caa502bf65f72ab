//! Inline rendering of rich content (math, plots, typeset fragments and image
//! files) embedded in a text document.
//!
//! The library holds the logic: the content scanner and node reconciler, the
//! per-node rendering state machine with its geometry cache, the viewport
//! classification, the fold-aware draw pass, and what a failed LaTeX run's
//! log tells of the error. Running external toolchains,
//! image encoding and terminal output are left to the caller, which performs
//! the jobs that the library hands out and feeds their results back.

pub mod error;
pub mod utils;
pub mod node_view;
pub mod content;
pub mod scan;
pub mod render;
pub mod latex;
