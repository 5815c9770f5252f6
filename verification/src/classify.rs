//! Window classifier: eligibility predicates over the outcomes of the
//! per-window property and attribute queries. Every query outcome is
//! handed in as a plain value, so a failed or absent read resolves to the
//! conservative answer here, never to an error.

use vstd::prelude::*;
use crate::atoms::ATOM_NONE;

verus! {

/// Outcome of one bounded property read: the property's words, or the
/// property was absent, or the read itself failed at the transport.
pub enum PropRead {
    Words(Vec<u32>),
    Absent,
    Failed,
}

/// Outcome of one window attributes query, when it succeeded.
#[derive(Clone, Copy, PartialEq, Eq, Structural, Debug)]
pub struct WindowAttrs {
    pub override_redirect: bool,
    pub viewable: bool,
}

/// The type check passes when the type property was read and its atom list
/// contains the real (non-sentinel) "normal window" type atom. An absent
/// or unreadable type property never passes.
pub open spec fn spec_type_normal(type_prop: PropRead, normal_atom: u32) -> bool {
    match type_prop {
        PropRead::Words(l) => normal_atom != ATOM_NONE && l@.contains(normal_atom),
        PropRead::Absent => false,
        PropRead::Failed => false,
    }
}

/// The taskbar-skip check fails a window that carries a non-empty skip
/// state property, and also one whose skip property could not be read;
/// a window without the property passes.
pub open spec fn spec_skip_taskbar(skip_prop: PropRead) -> bool {
    match skip_prop {
        PropRead::Words(l) => l@.len() > 0,
        PropRead::Absent => false,
        PropRead::Failed => true,
    }
}

/// The redirect check passes only a window whose attributes were read and
/// show no override-redirect flag; an unreadable window never passes.
pub open spec fn spec_attrs_ok(attrs: Option<WindowAttrs>) -> bool {
    match attrs {
        Some(a) => !a.override_redirect,
        None => false,
    }
}

/// A window qualifies for display when all three checks agree: type
/// normal, not taskbar-skipped, and not override-redirected.
pub open spec fn spec_eligible(
    type_prop: PropRead,
    normal_atom: u32,
    skip_prop: PropRead,
    attrs: Option<WindowAttrs>,
) -> bool {
    spec_type_normal(type_prop, normal_atom) && !spec_skip_taskbar(skip_prop) && spec_attrs_ok(
        attrs,
    )
}

/// Linear search of a word in a property's value list.
pub fn contains_word(words: &Vec<u32>, x: u32) -> (b: bool)
    ensures
        b == words@.contains(x),
{
    let mut i: usize = 0;
    while i < words.len()
        invariant
            i <= words.len(),
            forall|k: int| 0 <= k < i ==> words@[k] != x,
        decreases words.len() - i,
    {
        if words[i] == x {
            return true;
        }
        i = i + 1;
    }
    false
}

/// Type check over a fetched type property.
pub fn is_normal_window(type_prop: &PropRead, normal_atom: u32) -> (r: bool)
    ensures
        r == spec_type_normal(*type_prop, normal_atom),
{
    match type_prop {
        PropRead::Words(l) => normal_atom != ATOM_NONE && contains_word(l, normal_atom),
        PropRead::Absent => false,
        PropRead::Failed => false,
    }
}

/// Taskbar-skip check over a fetched skip state property.
pub fn is_skip_taskbar(skip_prop: &PropRead) -> (r: bool)
    ensures
        r == spec_skip_taskbar(*skip_prop),
{
    match skip_prop {
        PropRead::Words(l) => l.len() > 0,
        PropRead::Absent => false,
        PropRead::Failed => true,
    }
}

/// Redirect check over a window attributes query outcome.
pub fn is_override_redirect(attrs: &Option<WindowAttrs>) -> (r: bool)
    ensures
        r == !spec_attrs_ok(*attrs),
{
    match attrs {
        Some(a) => a.override_redirect,
        None => true,
    }
}

/// Conjunction of the three eligibility checks for a candidate window.
pub fn is_eligible(
    type_prop: &PropRead,
    normal_atom: u32,
    skip_prop: &PropRead,
    attrs: &Option<WindowAttrs>,
) -> (r: bool)
    ensures
        r == spec_eligible(*type_prop, normal_atom, *skip_prop, *attrs),
{
    is_normal_window(type_prop, normal_atom) && !is_skip_taskbar(skip_prop)
        && !is_override_redirect(attrs)
}

/// A window may take the focus only when its attributes were readable,
/// it is not override-redirected, and it is currently viewable; a click on
/// any other window is a silent no-op.
pub open spec fn spec_focusable(attrs: Option<WindowAttrs>) -> bool {
    match attrs {
        Some(a) => !a.override_redirect && a.viewable,
        None => false,
    }
}

/// Focus re-validation for a routed click.
pub fn is_focusable(attrs: &Option<WindowAttrs>) -> (r: bool)
    ensures
        r == spec_focusable(*attrs),
{
    match attrs {
        Some(a) => !a.override_redirect && a.viewable,
        None => false,
    }
}

/// The classifier defaults are fail-safe: a window whose type property is
/// absent or unreadable is never eligible, a window whose attributes query
/// failed is never eligible, and a window carrying a non-empty skip state
/// is never eligible, whatever its type.
pub proof fn lemma_classifier_defaults(
    type_prop: PropRead,
    normal_atom: u32,
    skip_prop: PropRead,
    attrs: Option<WindowAttrs>,
)
    ensures
        type_prop is Absent || type_prop is Failed ==> !spec_eligible(
            type_prop,
            normal_atom,
            skip_prop,
            attrs,
        ),
        attrs is None ==> !spec_eligible(type_prop, normal_atom, skip_prop, attrs),
        spec_skip_taskbar(skip_prop) ==> !spec_eligible(type_prop, normal_atom, skip_prop, attrs),
{
}

} // verus!
