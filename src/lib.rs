//! Patience diff: a line-oriented diff that anchors on tokens that occur
//! exactly once on both sides, plus a unified-diff style report renderer.

pub mod diff;
pub mod lis;
pub mod render;

pub use diff::{patience_diff, unique_check, Hunk, Range, UniqueCheck};
pub use lis::longest_increasing_subsequence;
pub use render::{context_windows, render_report, Window};
