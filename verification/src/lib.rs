//! Window-state synchronization and icon-extraction engine for a docking
//! panel: reconciles a local registry of tracked windows against a display
//! server's client list, classifies windows for display, decodes the
//! self-describing icon property format, and derives a deterministic layout.

use vstd::prelude::*;

mod atoms;
mod classify;
mod fetch;
mod icon;
mod registry;
mod title;

pub use atoms::ATOM_NONE;
pub use atoms::AtomTable;
pub use atoms::atom_matches;
pub use classify::PropRead;
pub use classify::WindowAttrs;
pub use classify::contains_word;
pub use classify::is_eligible;
pub use classify::is_focusable;
pub use classify::is_normal_window;
pub use classify::is_override_redirect;
pub use classify::is_skip_taskbar;
pub use fetch::probe_followup_length;
pub use icon::MAX_ICON_DIM;
pub use icon::decode_icon;
pub use icon::find_best_icon;
pub use icon::resample_icon;
pub use registry::CLIENT_LIST_MAX;
pub use registry::Discovery;
pub use registry::Rect;
pub use registry::Registry;
pub use registry::TrackedWindow;
pub use title::resolve_title;

verus! {

/// Side length in pixels of each displayed icon slot.
pub const ICON_SIZE: u32 = 32;

/// Fixed width in pixels of the panel strip.
pub const PANEL_WIDTH: u32 = 32;

/// Vertical gap between icon slots, and the top margin.
pub const ITEM_SPACING: u32 = 4;

} // verus!
