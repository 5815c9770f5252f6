//! Atom table: numeric identifiers for the symbolic protocol names the panel
//! relies on, resolved once at startup and read-only thereafter.

use vstd::prelude::*;

verus! {

/// Sentinel identifier returned when a symbolic name has no registration.
/// A comparison against this value must never match real property data.
pub const ATOM_NONE: u32 = 0;

/// Numeric identifiers for the protocol names the panel queries, resolved
/// once at startup. A field holding `ATOM_NONE` means the name had no
/// registration; matches against it are always treated as false.
#[derive(Clone, Copy, PartialEq, Eq, Structural, Debug)]
pub struct AtomTable {
    pub net_client_list: u32,
    pub net_wm_icon: u32,
    pub wm_delete: u32,
    pub net_wm_window_type: u32,
    pub net_wm_window_type_normal: u32,
    pub net_wm_state_skip_taskbar: u32,
    pub net_wm_name: u32,
    pub utf8_string: u32,
}

/// True when `a` is a real (non-sentinel) atom equal to `b`.
pub open spec fn spec_atom_matches(a: u32, b: u32) -> bool {
    a != ATOM_NONE && a == b
}

/// Compares a resolved atom against a value read from property data;
/// the unresolved sentinel matches nothing.
pub fn atom_matches(a: u32, b: u32) -> (r: bool)
    ensures
        r == spec_atom_matches(a, b),
{
    a != ATOM_NONE && a == b
}

} // verus!
