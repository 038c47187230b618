//! Expanded diff hunks of a text editor: which hunks of the version-control diff
//! are shown inline, and what has to be drawn, removed or expanded again when
//! the user toggles a hunk or the diff is recomputed.
pub mod anchor;
pub mod block;
pub mod call_laws;
pub mod diff_base;
pub mod display_laws;
pub mod editor;
pub mod effect;
pub mod expand;
pub mod expand_calls;
pub mod expand_laws;
pub mod expanded;
pub mod hunk;
pub mod joint_laws;
pub mod menu;
pub mod order;
pub mod request_laws;
pub mod sync;
pub mod sync_calls;
pub mod sync_laws;
pub mod toggle;
pub mod toggle_calls;
pub mod toggle_laws;
