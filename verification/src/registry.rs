//! Window registry: the ordered local record of tracked windows, owner of
//! their icon resources, reconciled each tick against the display server's
//! authoritative client list. Entries keep their discovery order, so the
//! layout and the click routing that follow it are deterministic.

use vstd::prelude::*;
use vstd::set_lib::lemma_len_subset;
use crate::ICON_SIZE;
use crate::ITEM_SPACING;
use crate::PANEL_WIDTH;

verus! {

/// Upper bound on the length of a fetched client list; longer lists are
/// truncated by the bounded property read before they reach the registry.
pub const CLIENT_LIST_MAX: usize = 8192;

/// An on-panel rectangle: position and size of one icon slot.
#[derive(Clone, Copy, PartialEq, Eq, Structural, Debug)]
pub struct Rect {
    pub x: i32,
    pub y: i32,
    pub width: u32,
    pub height: u32,
}

/// One tracked window: its server handle, resolved title, the identifier
/// of its uploaded icon raster when one was decoded, and its current slot
/// rectangle.
pub struct TrackedWindow {
    pub handle: u32,
    pub title: String,
    pub icon: Option<u32>,
    pub rect: Rect,
}

/// Everything the synchronization pass learned about one newly listed
/// handle: whether it qualified for display, and, when it did, its
/// resolved title and its uploaded icon raster, if decoding succeeded.
pub struct Discovery {
    pub handle: u32,
    pub eligible: bool,
    pub title: String,
    pub icon: Option<u32>,
}

/// The registry itself: tracked entries in discovery order.
pub struct Registry {
    pub entries: Vec<TrackedWindow>,
}

/// Slot rectangles stay in a small fixed range, so click arithmetic on
/// them cannot overflow.
pub open spec fn spec_rect_bounded(r: Rect) -> bool {
    0 <= r.x <= 0x10_0000 && 0 <= r.y <= 0x10_0000 && r.width <= 0x1_0000 && r.height <= 0x1_0000
}

/// A well-formed entry has a non-empty title and a bounded rectangle.
pub open spec fn spec_entry_wf(e: TrackedWindow) -> bool {
    e.title@.len() > 0 && spec_rect_bounded(e.rect)
}

/// No two entries track the same handle.
pub open spec fn spec_distinct_handles(s: Seq<TrackedWindow>) -> bool {
    forall|i: int, j: int| 0 <= i < j < s.len() ==> s[i].handle != s[j].handle
}

/// A handle is tracked when some entry carries it.
pub open spec fn spec_tracks(s: Seq<TrackedWindow>, h: u32) -> bool {
    exists|i: int| 0 <= i < s.len() && s[i].handle == h
}

/// Registry invariant: distinct handles, well-formed entries, and no more
/// entries than a client list can carry.
pub open spec fn spec_registry_wf(s: Seq<TrackedWindow>) -> bool {
    &&& spec_distinct_handles(s)
    &&& forall|i: int| 0 <= i < s.len() ==> spec_entry_wf(#[trigger] s[i])
    &&& s.len() <= CLIENT_LIST_MAX
}

/// Entries that survive reconciliation against a client list: exactly
/// those whose handle the list still names, in unchanged order.
pub open spec fn spec_evict(s: Seq<TrackedWindow>, list: Seq<u32>) -> Seq<TrackedWindow>
    decreases s.len(),
{
    if s.len() == 0 {
        Seq::empty()
    } else {
        let pre = spec_evict(s.drop_last(), list);
        if list.contains(s.last().handle) {
            pre.push(s.last())
        } else {
            pre
        }
    }
}

/// Icon resource identifiers released by reconciliation: the icons of the
/// entries whose handle the list no longer names, in registry order. Their
/// release is a required side effect of removal.
pub open spec fn spec_freed(s: Seq<TrackedWindow>, list: Seq<u32>) -> Seq<u32>
    decreases s.len(),
{
    if s.len() == 0 {
        Seq::empty()
    } else {
        let pre = spec_freed(s.drop_last(), list);
        if !list.contains(s.last().handle) && s.last().icon is Some {
            pre.push(s.last().icon.unwrap())
        } else {
            pre
        }
    }
}

/// The discovery plan: the handles the client list names that the
/// registry does not track, in list order, first occurrence only.
pub open spec fn spec_plan(s: Seq<TrackedWindow>, list: Seq<u32>) -> Seq<u32>
    decreases list.len(),
{
    if list.len() == 0 {
        Seq::empty()
    } else {
        let pre = spec_plan(s, list.drop_last());
        let h = list.last();
        if !spec_tracks(s, h) && !list.drop_last().contains(h) {
            pre.push(h)
        } else {
            pre
        }
    }
}

/// The entry a discovery creates: freshly tracked, rectangle still unset
/// until the layout pass places it.
pub open spec fn spec_new_entry(d: Discovery) -> TrackedWindow {
    TrackedWindow {
        handle: d.handle,
        title: d.title,
        icon: d.icon,
        rect: Rect { x: 0, y: 0, width: 0, height: 0 },
    }
}

/// Insertion of the discovered windows: each eligible discovery whose
/// handle is not yet tracked appends a fresh entry, in discovery order.
pub open spec fn spec_apply(s: Seq<TrackedWindow>, ds: Seq<Discovery>) -> Seq<TrackedWindow>
    decreases ds.len(),
{
    if ds.len() == 0 {
        s
    } else {
        let pre = spec_apply(s, ds.drop_last());
        let d = ds.last();
        if d.eligible && !spec_tracks(pre, d.handle) {
            pre.push(spec_new_entry(d))
        } else {
            pre
        }
    }
}

/// The slot rectangle of the entry at position `i`: a fixed-size square,
/// horizontally centered in the panel, stacked downward from a top margin
/// of one spacing unit with one spacing unit between slots.
pub open spec fn spec_slot_rect(i: int) -> Rect {
    Rect {
        x: ((PANEL_WIDTH as int - ICON_SIZE as int) / 2) as i32,
        y: (ITEM_SPACING as int + i * (ICON_SIZE as int + ITEM_SPACING as int)) as i32,
        width: ICON_SIZE,
        height: ICON_SIZE,
    }
}

/// The same entry, placed at the given rectangle.
pub open spec fn spec_with_rect(e: TrackedWindow, r: Rect) -> TrackedWindow {
    TrackedWindow { handle: e.handle, title: e.title, icon: e.icon, rect: r }
}

/// The layout pass: every entry keeps its place in the order and receives
/// the slot rectangle of its position.
pub open spec fn spec_layout(s: Seq<TrackedWindow>) -> Seq<TrackedWindow> {
    Seq::new(s.len(), |i: int| spec_with_rect(s[i], spec_slot_rect(i)))
}

/// One whole synchronization pass over the registry state: evict the
/// entries the list no longer names, insert the eligible discoveries, and
/// recompute every slot rectangle.
pub open spec fn spec_sync(
    s: Seq<TrackedWindow>,
    list: Seq<u32>,
    ds: Seq<Discovery>,
) -> Seq<TrackedWindow> {
    spec_layout(spec_apply(spec_evict(s, list), ds))
}

/// The handles of a discovery sequence, in order.
pub open spec fn spec_discovery_handles(ds: Seq<Discovery>) -> Seq<u32> {
    Seq::new(ds.len(), |i: int| ds[i].handle)
}

/// A handle stands in the plan exactly when the list names it and the
/// registry does not track it.
pub proof fn lemma_plan_membership(s: Seq<TrackedWindow>, list: Seq<u32>, h: u32)
    ensures
        spec_plan(s, list).contains(h) <==> (list.contains(h) && !spec_tracks(s, h)),
    decreases list.len(),
{
    if list.len() == 0 {
        assert(!list.contains(h));
    } else {
        let pre = list.drop_last();
        lemma_plan_membership(s, pre, h);
        let plan_pre = spec_plan(s, pre);
        let last = list.last();
        if !spec_tracks(s, last) && !pre.contains(last) {
            assert(spec_plan(s, list) == plan_pre.push(last));
            if h == last {
                assert(spec_plan(s, list).contains(h)) by {
                    assert(spec_plan(s, list).last() == h);
                }
                assert(list.contains(h)) by {
                    assert(list.last() == h);
                }
            } else {
                assert(plan_pre.push(last).contains(h) <==> plan_pre.contains(h)) by {
                    if plan_pre.push(last).contains(h) {
                        let k = choose|k: int|
                            0 <= k < plan_pre.push(last).len() && plan_pre.push(last)[k] == h;
                        if k < plan_pre.len() {
                            assert(plan_pre[k] == h);
                        } else {
                            assert(plan_pre.push(last)[k] == last);
                        }
                    }
                    if plan_pre.contains(h) {
                        let k = choose|k: int| 0 <= k < plan_pre.len() && plan_pre[k] == h;
                        assert(plan_pre.push(last)[k] == h);
                    }
                }
                assert(list.contains(h) <==> pre.contains(h)) by {
                    if list.contains(h) {
                        let k = choose|k: int| 0 <= k < list.len() && list[k] == h;
                        assert(k < list.len() - 1);
                        assert(pre[k] == h);
                    } else {
                        assert(forall|k: int| 0 <= k < pre.len() ==> pre[k] == list[k]);
                    }
                }
            }
        } else {
            assert(spec_plan(s, list) == plan_pre);
            if h == last {
                if spec_tracks(s, last) {
                    assert(!(list.contains(h) && !spec_tracks(s, h)));
                    assert(!plan_pre.contains(h));
                } else {
                    assert(pre.contains(h));
                }
            } else {
                assert(list.contains(h) <==> pre.contains(h)) by {
                    if list.contains(h) {
                        let k = choose|k: int| 0 <= k < list.len() && list[k] == h;
                        assert(k < list.len() - 1);
                        assert(pre[k] == h);
                    } else {
                        assert(forall|k: int| 0 <= k < pre.len() ==> pre[k] == list[k]);
                    }
                }
            }
        }
    }
}

/// Every survivor of eviction is an entry of the prior registry whose
/// handle the list still names; order is preserved, so handle
/// distinctness is too.
pub proof fn lemma_evict_props(s: Seq<TrackedWindow>, list: Seq<u32>)
    ensures
        spec_evict(s, list).len() <= s.len(),
        forall|i: int|
            0 <= i < spec_evict(s, list).len() ==> s.contains(#[trigger] spec_evict(s, list)[i])
                && list.contains(spec_evict(s, list)[i].handle),
        spec_distinct_handles(s) ==> spec_distinct_handles(spec_evict(s, list)),
    decreases s.len(),
{
    if s.len() == 0 {
    } else {
        let pre = s.drop_last();
        lemma_evict_props(pre, list);
        let ev_pre = spec_evict(pre, list);
        assert(forall|i: int| 0 <= i < ev_pre.len() ==> pre.contains(#[trigger] ev_pre[i])
            ==> s.contains(ev_pre[i])) by {
            assert(forall|i: int| 0 <= i < pre.len() ==> pre[i] == s[i]);
        }
        assert(forall|e: TrackedWindow| pre.contains(e) ==> s.contains(e)) by {
            assert forall|e: TrackedWindow| pre.contains(e) implies s.contains(e) by {
                let k = choose|k: int| 0 <= k < pre.len() && pre[k] == e;
                assert(s[k] == e);
            }
        }
        if list.contains(s.last().handle) {
            let ev = ev_pre.push(s.last());
            assert(spec_evict(s, list) == ev);
            assert(s.contains(s.last())) by {
                assert(s[s.len() - 1] == s.last());
            }
            if spec_distinct_handles(s) {
                assert(spec_distinct_handles(pre));
                assert forall|i: int, j: int| 0 <= i < j < ev.len() implies ev[i].handle
                    != ev[j].handle by {
                    if j < ev.len() - 1 {
                        assert(ev_pre[i].handle != ev_pre[j].handle);
                    } else {
                        assert(ev[j] == s.last());
                        assert(pre.contains(ev[i]));
                        let k = choose|k: int| 0 <= k < pre.len() && pre[k] == ev[i];
                        assert(s[k].handle != s[s.len() - 1].handle);
                    }
                }
            }
        }
    }
}

/// Eviction against a list that still names every tracked handle removes
/// nothing and frees nothing.
pub proof fn lemma_evict_noop(s: Seq<TrackedWindow>, list: Seq<u32>)
    requires
        forall|i: int| 0 <= i < s.len() ==> list.contains(#[trigger] s[i].handle),
    ensures
        spec_evict(s, list) =~= s,
        spec_freed(s, list) =~= Seq::<u32>::empty(),
    decreases s.len(),
{
    if s.len() == 0 {
    } else {
        let pre = s.drop_last();
        assert(forall|i: int| 0 <= i < pre.len() ==> list.contains(#[trigger] pre[i].handle)) by {
            assert(forall|i: int| 0 <= i < pre.len() ==> pre[i] == s[i]);
        }
        lemma_evict_noop(pre, list);
        assert(list.contains(s.last().handle)) by {
            assert(s.last() == s[s.len() - 1]);
        }
        assert(spec_evict(s, list) =~= pre.push(s.last()));
        assert(pre.push(s.last()) =~= s);
    }
}

/// What insertion leaves in place and what it adds: the existing entries
/// keep their positions unchanged, every appended entry is the fresh
/// entry of some discovery, every handle in the result was tracked before
/// or discovered now, and handle distinctness is preserved.
pub proof fn lemma_apply_props(s: Seq<TrackedWindow>, ds: Seq<Discovery>)
    ensures
        s.len() <= spec_apply(s, ds).len(),
        forall|i: int| 0 <= i < s.len() ==> spec_apply(s, ds)[i] == s[i],
        forall|i: int|
            0 <= i < spec_apply(s, ds).len() ==> spec_tracks(
                s,
                #[trigger] spec_apply(s, ds)[i].handle,
            ) || spec_discovery_handles(ds).contains(spec_apply(s, ds)[i].handle),
        forall|i: int|
            s.len() <= i < spec_apply(s, ds).len() ==> exists|j: int|
                0 <= j < ds.len() && #[trigger] spec_apply(s, ds)[i] == spec_new_entry(ds[j]),
        spec_distinct_handles(s) ==> spec_distinct_handles(spec_apply(s, ds)),
    decreases ds.len(),
{
    if ds.len() == 0 {
    } else {
        let dpre = ds.drop_last();
        lemma_apply_props(s, dpre);
        let pre = spec_apply(s, dpre);
        let d = ds.last();
        assert(forall|j: int| 0 <= j < dpre.len() ==> dpre[j] == ds[j]);
        assert(forall|h: u32|
            spec_discovery_handles(dpre).contains(h) ==> #[trigger] spec_discovery_handles(
                ds,
            ).contains(h)) by {
            assert forall|h: u32| spec_discovery_handles(dpre).contains(h) implies
                spec_discovery_handles(ds).contains(h) by {
                let k = choose|k: int|
                    0 <= k < dpre.len() && spec_discovery_handles(dpre)[k] == h;
                assert(spec_discovery_handles(ds)[k] == h);
            }
        }
        if d.eligible && !spec_tracks(pre, d.handle) {
            let ap = pre.push(spec_new_entry(d));
            assert(spec_apply(s, ds) == ap);
            assert(spec_discovery_handles(ds)[ds.len() - 1] == d.handle);
            assert(spec_discovery_handles(ds).contains(d.handle));
            assert forall|i: int| s.len() <= i < ap.len() implies exists|j: int|
                0 <= j < ds.len() && #[trigger] ap[i] == spec_new_entry(ds[j]) by {
                if i < ap.len() - 1 {
                    let j = choose|j: int|
                        0 <= j < dpre.len() && pre[i] == spec_new_entry(dpre[j]);
                    assert(ap[i] == spec_new_entry(ds[j]));
                } else {
                    assert(ap[i] == spec_new_entry(ds[ds.len() - 1]));
                }
            }
            if spec_distinct_handles(s) {
                assert forall|i: int, j: int| 0 <= i < j < ap.len() implies ap[i].handle
                    != ap[j].handle by {
                    if j < ap.len() - 1 {
                        assert(pre[i].handle != pre[j].handle);
                    } else {
                        assert(ap[j].handle == d.handle);
                        if ap[i].handle == d.handle {
                            assert(spec_tracks(pre, d.handle));
                        }
                    }
                }
            }
        }
    }
}

/// A discovery reported eligible ends up tracked after insertion, whether
/// it was inserted by this pass or already tracked when its turn came.
pub proof fn lemma_apply_eligible_tracked(s: Seq<TrackedWindow>, ds: Seq<Discovery>, j: int)
    requires
        0 <= j < ds.len(),
        ds[j].eligible,
    ensures
        spec_tracks(spec_apply(s, ds), ds[j].handle),
    decreases ds.len(),
{
    let dpre = ds.drop_last();
    let pre = spec_apply(s, dpre);
    let d = ds.last();
    if j < ds.len() - 1 {
        lemma_apply_eligible_tracked(s, dpre, j);
        let k = choose|k: int| 0 <= k < pre.len() && pre[k].handle == dpre[j].handle;
        if d.eligible && !spec_tracks(pre, d.handle) {
            assert(spec_apply(s, ds)[k].handle == ds[j].handle);
        } else {
            assert(spec_apply(s, ds)[k].handle == ds[j].handle);
        }
    } else {
        if !spec_tracks(pre, d.handle) {
            let ap = pre.push(spec_new_entry(d));
            assert(ap[ap.len() - 1].handle == d.handle);
        } else {
            let k = choose|k: int| 0 <= k < pre.len() && pre[k].handle == d.handle;
            assert(spec_apply(s, ds)[k].handle == d.handle);
        }
    }
}

/// Discoveries that all report ineligible insert nothing.
pub proof fn lemma_apply_no_inserts(s: Seq<TrackedWindow>, ds: Seq<Discovery>)
    requires
        forall|i: int| 0 <= i < ds.len() ==> !(#[trigger] ds[i].eligible),
    ensures
        spec_apply(s, ds) == s,
    decreases ds.len(),
{
    if ds.len() == 0 {
    } else {
        let dpre = ds.drop_last();
        assert(forall|i: int| 0 <= i < dpre.len() ==> dpre[i] == ds[i]);
        lemma_apply_no_inserts(s, dpre);
        assert(!ds.last().eligible) by {
            assert(ds.last() == ds[ds.len() - 1]);
        }
    }
}

/// A registry whose handles are distinct and all named by a client list
/// cannot hold more entries than the list holds values.
pub proof fn lemma_distinct_handles_bound(t: Seq<TrackedWindow>, list: Seq<u32>)
    requires
        spec_distinct_handles(t),
        forall|i: int| 0 <= i < t.len() ==> list.contains(#[trigger] t[i].handle),
    ensures
        t.len() <= list.len(),
{
    broadcast use vstd::seq_lib::seq_to_set_is_finite;
    broadcast use vstd::set::group_set_axioms;

    let hs = Seq::new(t.len(), |i: int| t[i].handle);
    assert(hs.no_duplicates());
    hs.unique_seq_to_set();
    list.lemma_cardinality_of_set();
    assert(hs.to_set().subset_of(list.to_set())) by {
        assert forall|h: u32| hs.to_set().contains(h) implies list.to_set().contains(h) by {
            let k = choose|k: int| 0 <= k < hs.len() && hs[k] == h;
            assert(list.contains(t[k].handle));
        }
    }
    lemma_len_subset(hs.to_set(), list.to_set());
}

/// Placing rectangles twice is the same as placing them once.
pub proof fn lemma_layout_idempotent(s: Seq<TrackedWindow>)
    ensures
        spec_layout(spec_layout(s)) =~= spec_layout(s),
{
}

/// The icon identifiers a registry still owns, in order.
pub open spec fn spec_owned_icons(s: Seq<TrackedWindow>) -> Seq<u32>
    decreases s.len(),
{
    if s.len() == 0 {
        Seq::empty()
    } else {
        let pre = spec_owned_icons(s.drop_last());
        if s.last().icon is Some {
            pre.push(s.last().icon.unwrap())
        } else {
            pre
        }
    }
}

/// Against an empty client list, eviction frees exactly the icons the
/// registry owned.
pub proof fn lemma_freed_all(s: Seq<TrackedWindow>)
    ensures
        spec_freed(s, Seq::<u32>::empty()) == spec_owned_icons(s),
    decreases s.len(),
{
    if s.len() == 0 {
    } else {
        lemma_freed_all(s.drop_last());
    }
}

/// Whatever entries a registry tracks after a synchronization pass, every
/// one of their handles is named by the client list of that pass.
pub proof fn lemma_sync_handles_listed(s: Seq<TrackedWindow>, list: Seq<u32>, ds: Seq<Discovery>)
    requires
        spec_discovery_handles(ds) == spec_plan(s, list),
    ensures
        forall|i: int|
            0 <= i < spec_sync(s, list, ds).len() ==> list.contains(
                #[trigger] spec_sync(s, list, ds)[i].handle,
            ),
{
    let evicted = spec_evict(s, list);
    let applied = spec_apply(evicted, ds);
    lemma_evict_props(s, list);
    lemma_apply_props(evicted, ds);
    assert forall|i: int| 0 <= i < spec_sync(s, list, ds).len() implies list.contains(
        #[trigger] spec_sync(s, list, ds)[i].handle,
    ) by {
        assert(spec_sync(s, list, ds)[i] == spec_with_rect(applied[i], spec_slot_rect(i)));
        if spec_tracks(evicted, applied[i].handle) {
            let j = choose|j: int|
                0 <= j < evicted.len() && evicted[j].handle == applied[i].handle;
            assert(list.contains(evicted[j].handle));
        } else {
            assert(spec_discovery_handles(ds).contains(applied[i].handle));
            lemma_plan_membership(s, list, applied[i].handle);
        }
    }
}

/// An entry whose handle the list no longer names leaves its icon, when
/// it owns one, among the freed identifiers.
proof fn lemma_freed_contains(s: Seq<TrackedWindow>, list: Seq<u32>, i: int)
    requires
        0 <= i < s.len(),
        !list.contains(s[i].handle),
        s[i].icon is Some,
    ensures
        spec_freed(s, list).contains(s[i].icon.unwrap()),
    decreases s.len(),
{
    let pre = spec_freed(s.drop_last(), list);
    if i == s.len() - 1 {
        assert(s.last() == s[i]);
        assert(spec_freed(s, list) == pre.push(s[i].icon.unwrap()));
        assert(spec_freed(s, list)[pre.len() as int] == s[i].icon.unwrap());
    } else {
        assert(s.drop_last()[i] == s[i]);
        lemma_freed_contains(s.drop_last(), list, i);
        let j = choose|j: int| 0 <= j < pre.len() && pre[j] == s[i].icon.unwrap();
        if !list.contains(s.last().handle) && s.last().icon is Some {
            assert(spec_freed(s, list) == pre.push(s.last().icon.unwrap()));
            assert(spec_freed(s, list)[j] == s[i].icon.unwrap());
        } else {
            assert(spec_freed(s, list) == pre);
        }
    }
}

/// Eviction releases resources. When a pass runs against a client list
/// that no longer names the handle of entry `i`, that entry is gone
/// afterward — no entry tracks its handle — and the icon it owned, if
/// any, is among the freed identifiers handed back for release. A later
/// list that names the handle again plans it for a fresh discovery, and
/// so for a fresh decode.
pub proof fn lemma_eviction_releases(
    s: Seq<TrackedWindow>,
    list: Seq<u32>,
    ds: Seq<Discovery>,
    relisted: Seq<u32>,
    i: int,
)
    requires
        spec_discovery_handles(ds) == spec_plan(s, list),
        0 <= i < s.len(),
        !list.contains(s[i].handle),
        relisted.contains(s[i].handle),
    ensures
        !spec_tracks(spec_sync(s, list, ds), s[i].handle),
        s[i].icon is Some ==> spec_freed(s, list).contains(s[i].icon.unwrap()),
        spec_plan(spec_sync(s, list, ds), relisted).contains(s[i].handle),
{
    let h = s[i].handle;
    lemma_sync_handles_listed(s, list, ds);
    assert(!spec_tracks(spec_sync(s, list, ds), h)) by {
        if spec_tracks(spec_sync(s, list, ds), h) {
            let k = choose|k: int|
                0 <= k < spec_sync(s, list, ds).len() && spec_sync(s, list, ds)[k].handle == h;
            assert(list.contains(spec_sync(s, list, ds)[k].handle));
        }
    }
    if s[i].icon is Some {
        lemma_freed_contains(s, list, i);
    }
    lemma_plan_membership(spec_sync(s, list, ds), relisted, h);
}

/// Synchronization is idempotent. A second pass over the state the first
/// pass left, against the same client list and with discoveries that
/// report what the first pass already learned (the same data for each
/// handle that is still untracked, which the first pass found ineligible),
/// evicts nothing, frees nothing, inserts nothing, and leaves every
/// entry's handle, title, icon and rectangle unchanged.
pub proof fn lemma_synchronize_idempotent(
    s: Seq<TrackedWindow>,
    list: Seq<u32>,
    ds: Seq<Discovery>,
    ds2: Seq<Discovery>,
)
    requires
        spec_discovery_handles(ds) == spec_plan(s, list),
        spec_discovery_handles(ds2) == spec_plan(spec_sync(s, list, ds), list),
        forall|i: int| 0 <= i < ds2.len() ==> ds.contains(#[trigger] ds2[i]),
    ensures
        spec_sync(spec_sync(s, list, ds), list, ds2) == spec_sync(s, list, ds),
        spec_freed(spec_sync(s, list, ds), list) =~= Seq::<u32>::empty(),
{
    let s1 = spec_sync(s, list, ds);
    let evicted = spec_evict(s, list);
    let applied = spec_apply(evicted, ds);
    lemma_sync_handles_listed(s, list, ds);
    lemma_evict_noop(s1, list);

    assert forall|i: int| 0 <= i < ds2.len() implies !(#[trigger] ds2[i].eligible) by {
        let h = ds2[i].handle;
        assert(spec_discovery_handles(ds2)[i] == h);
        assert(spec_plan(s1, list).contains(h));
        lemma_plan_membership(s1, list, h);
        assert(!spec_tracks(s1, h));
        if ds2[i].eligible {
            let j = choose|j: int| 0 <= j < ds.len() && ds[j] == ds2[i];
            lemma_apply_eligible_tracked(evicted, ds, j);
            assert(spec_tracks(applied, h));
            let k = choose|k: int| 0 <= k < applied.len() && applied[k].handle == h;
            assert(s1[k] == spec_with_rect(applied[k], spec_slot_rect(k)));
            assert(spec_tracks(s1, h));
        }
    }
    lemma_apply_no_inserts(s1, ds2);
    lemma_layout_idempotent(applied);
    assert(spec_sync(s1, list, ds2) == spec_layout(spec_apply(spec_evict(s1, list), ds2)));
    assert(spec_evict(s1, list) == s1);
    assert(spec_apply(s1, ds2) == s1);
    assert(spec_layout(s1) == s1);
}

impl Registry {
    /// Registry well-formedness, as an invariant every operation keeps.
    pub open spec fn wf(&self) -> bool {
        spec_registry_wf(self.entries@)
    }

    /// A panel starts with an empty registry.
    pub fn new() -> (r: Registry)
        ensures
            r.entries@ =~= Seq::<TrackedWindow>::empty(),
            r.wf(),
    {
        Registry { entries: Vec::new() }
    }

    /// Whether a handle is currently tracked.
    pub fn contains_handle(&self, h: u32) -> (b: bool)
        ensures
            b == spec_tracks(self.entries@, h),
    {
        let mut i: usize = 0;
        while i < self.entries.len()
            invariant
                i <= self.entries.len(),
                forall|k: int| 0 <= k < i ==> self.entries@[k].handle != h,
            decreases self.entries.len() - i,
        {
            if self.entries[i].handle == h {
                return true;
            }
            i = i + 1;
        }
        false
    }

    /// The handles the coming synchronization pass must discover: those
    /// the client list names that are not yet tracked, in list order,
    /// without repetition.
    pub fn sync_plan(&self, list: &Vec<u32>) -> (plan: Vec<u32>)
        ensures
            plan@ == spec_plan(self.entries@, list@),
    {
        let mut plan: Vec<u32> = Vec::new();
        let mut i: usize = 0;
        while i < list.len()
            invariant
                i <= list.len(),
                plan@ == spec_plan(self.entries@, list@.take(i as int)),
            decreases list.len() - i,
        {
            let h = list[i];
            let ghost pre = list@.take(i as int);
            proof {
                assert(list@.take(i as int + 1).drop_last() =~= pre);
                assert(list@.take(i as int + 1).last() == h);
                lemma_plan_membership(self.entries@, pre, h);
            }
            if !self.contains_handle(h) && !crate::classify::contains_word(&plan, h) {
                plan.push(h);
            }
            i = i + 1;
        }
        proof {
            assert(list@.take(list@.len() as int) =~= list@);
        }
        plan
    }

    /// Recomputes every entry's slot rectangle, in order: fixed-size
    /// squares, horizontally centered, stacked downward with one spacing
    /// unit between slots and as the top margin.
    pub fn update_layout(&mut self)
        requires
            old(self).entries@.len() <= CLIENT_LIST_MAX,
        ensures
            final(self).entries@ == spec_layout(old(self).entries@),
    {
        let ghost t = self.entries@;
        let mut pending: Vec<TrackedWindow> = Vec::new();
        core::mem::swap(&mut pending, &mut self.entries);
        let x_center: i32 = ((PANEL_WIDTH - ICON_SIZE) / 2) as i32;
        let mut y: i32 = ITEM_SPACING as i32;
        let ghost mut k: int = 0;
        while pending.len() > 0
            invariant
                t.len() <= CLIENT_LIST_MAX,
                0 <= k <= t.len(),
                pending@ == t.skip(k),
                x_center as int == (PANEL_WIDTH as int - ICON_SIZE as int) / 2,
                y as int == ITEM_SPACING as int + k * (ICON_SIZE as int + ITEM_SPACING as int),
                self.entries@.len() == k,
                forall|i: int|
                    0 <= i < k ==> self.entries@[i] == spec_with_rect(
                        #[trigger] t[i],
                        spec_slot_rect(i),
                    ),
            decreases pending@.len(),
        {
            let mut e = pending.remove(0);
            proof {
                assert(t.skip(k)[0] == t[k]);
                assert(t.skip(k).remove(0) =~= t.skip(k + 1));
            }
            e.rect = Rect { x: x_center, y, width: ICON_SIZE, height: ICON_SIZE };
            self.entries.push(e);
            proof {
                let step = ICON_SIZE as int + ITEM_SPACING as int;
                assert(step == 36);
                assert(0 <= k * step && k * step <= 8191 * 36) by (nonlinear_arith)
                    requires
                        0 <= k <= 8191,
                        step == 36,
                ;
                assert((k + 1) * step == k * step + step) by (nonlinear_arith);
            }
            y = y + (ICON_SIZE + ITEM_SPACING) as i32;
            proof {
                k = k + 1;
            }
        }
        proof {
            assert(t.skip(k).len() == 0);
            assert(self.entries@ =~= spec_layout(t));
        }
    }

    /// One synchronization pass: evicts every entry whose handle the
    /// client list no longer names, returning the icon identifiers those
    /// entries owned so the caller can release them; inserts a fresh entry
    /// for every eligible discovery; and recomputes the layout. The
    /// discoveries must cover exactly the planned handles, in plan order.
    pub fn synchronize(&mut self, list: &Vec<u32>, discoveries: Vec<Discovery>) -> (freed: Vec<
        u32,
    >)
        requires
            old(self).wf(),
            list@.len() <= CLIENT_LIST_MAX,
            spec_discovery_handles(discoveries@) == spec_plan(old(self).entries@, list@),
            forall|i: int|
                0 <= i < discoveries@.len() ==> (#[trigger] discoveries@[i]).title@.len() > 0,
        ensures
            final(self).entries@ == spec_sync(old(self).entries@, list@, discoveries@),
            freed@ == spec_freed(old(self).entries@, list@),
            final(self).wf(),
    {
        let ghost s0 = self.entries@;
        let ghost ds0 = discoveries@;

        let mut pending: Vec<TrackedWindow> = Vec::new();
        core::mem::swap(&mut pending, &mut self.entries);
        let mut freed: Vec<u32> = Vec::new();
        let ghost mut k: int = 0;
        while pending.len() > 0
            invariant
                0 <= k <= s0.len(),
                pending@ == s0.skip(k),
                self.entries@ == spec_evict(s0.take(k), list@),
                freed@ == spec_freed(s0.take(k), list@),
            decreases pending@.len(),
        {
            let e = pending.remove(0);
            proof {
                assert(s0.skip(k)[0] == s0[k]);
                assert(s0.skip(k).remove(0) =~= s0.skip(k + 1));
                assert(s0.take(k + 1).drop_last() =~= s0.take(k));
                assert(s0.take(k + 1).last() == s0[k]);
            }
            if crate::classify::contains_word(list, e.handle) {
                self.entries.push(e);
            } else {
                match e.icon {
                    Some(id) => freed.push(id),
                    None => {},
                }
            }
            proof {
                k = k + 1;
            }
        }
        proof {
            assert(s0.skip(k).len() == 0);
            assert(s0.take(k) =~= s0);
        }
        let ghost evicted = self.entries@;

        let mut ds = discoveries;
        let ghost mut m: int = 0;
        while ds.len() > 0
            invariant
                0 <= m <= ds0.len(),
                ds@ == ds0.skip(m),
                self.entries@ == spec_apply(evicted, ds0.take(m)),
            decreases ds@.len(),
        {
            let d = ds.remove(0);
            proof {
                assert(ds0.skip(m)[0] == ds0[m]);
                assert(ds0.skip(m).remove(0) =~= ds0.skip(m + 1));
                assert(ds0.take(m + 1).drop_last() =~= ds0.take(m));
                assert(ds0.take(m + 1).last() == ds0[m]);
            }
            let already_known = self.contains_handle(d.handle);
            if d.eligible && !already_known {
                self.entries.push(
                    TrackedWindow {
                        handle: d.handle,
                        title: d.title,
                        icon: d.icon,
                        rect: Rect { x: 0, y: 0, width: 0, height: 0 },
                    },
                );
            }
            proof {
                m = m + 1;
            }
        }
        proof {
            assert(ds0.skip(m).len() == 0);
            assert(ds0.take(m) =~= ds0);
        }

        proof {
            lemma_evict_props(s0, list@);
            lemma_apply_props(evicted, ds0);
            let cur = self.entries@;
            assert forall|i: int| 0 <= i < cur.len() implies list@.contains(
                #[trigger] cur[i].handle,
            ) by {
                if spec_tracks(evicted, cur[i].handle) {
                    let j = choose|j: int|
                        0 <= j < evicted.len() && evicted[j].handle == cur[i].handle;
                    assert(list@.contains(evicted[j].handle));
                } else {
                    assert(spec_discovery_handles(ds0).contains(cur[i].handle));
                    lemma_plan_membership(s0, list@, cur[i].handle);
                }
            }
            lemma_distinct_handles_bound(cur, list@);
            assert forall|i: int| 0 <= i < cur.len() implies spec_entry_wf(#[trigger] cur[i]) by {
                if i < evicted.len() {
                    assert(cur[i] == evicted[i]);
                    assert(evicted.contains(evicted[i]));
                    let j = choose|j: int| 0 <= j < s0.len() && s0[j] == evicted[i];
                    assert(spec_entry_wf(s0[j]));
                } else {
                    let j = choose|j: int|
                        0 <= j < ds0.len() && cur[i] == spec_new_entry(ds0[j]);
                    assert(ds0[j].title@.len() > 0);
                }
            }
        }
        self.update_layout();
        proof {
            let placed = self.entries@;
            let applied = spec_apply(evicted, ds0);
            assert forall|i: int, j: int| 0 <= i < j < placed.len() implies placed[i].handle
                != placed[j].handle by {
                assert(placed[i].handle == applied[i].handle);
                assert(placed[j].handle == applied[j].handle);
            }
            assert forall|i: int| 0 <= i < placed.len() implies spec_entry_wf(
                #[trigger] placed[i],
            ) by {
                assert(placed[i] == spec_with_rect(applied[i], spec_slot_rect(i)));
                assert(spec_entry_wf(applied[i]));
                assert(0 <= i < CLIENT_LIST_MAX);
                assert(spec_rect_bounded(spec_slot_rect(i)));
            }
        }
        freed
    }

    /// Point containment for a slot rectangle, inclusive on all edges.
    pub open spec fn spec_rect_contains(r: Rect, x: int, y: int) -> bool {
        r.x as int <= x && x <= r.x as int + r.width as int && r.y as int <= y && y <= r.y as int
            + r.height as int
    }

    /// The first entry, in layout order, whose rectangle contains the
    /// point, or nothing.
    pub open spec fn spec_route(s: Seq<TrackedWindow>, x: int, y: int) -> Option<u32>
        decreases s.len(),
    {
        if s.len() == 0 {
            None
        } else if Self::spec_rect_contains(s[0].rect, x, y) {
            Some(s[0].handle)
        } else {
            Self::spec_route(s.drop_first(), x, y)
        }
    }

    /// Routes a click at `(x, y)` to the first tracked entry, in layout
    /// order, whose rectangle contains the point, bounds inclusive.
    pub fn route_click(&self, x: i32, y: i32) -> (r: Option<u32>)
        requires
            self.wf(),
        ensures
            r == Self::spec_route(self.entries@, x as int, y as int),
    {
        let mut i: usize = 0;
        proof {
            assert(self.entries@.skip(0) =~= self.entries@);
        }
        while i < self.entries.len()
            invariant
                self.wf(),
                i <= self.entries.len(),
                Self::spec_route(self.entries@, x as int, y as int) == Self::spec_route(
                    self.entries@.skip(i as int),
                    x as int,
                    y as int,
                ),
            decreases self.entries.len() - i,
        {
            proof {
                assert(self.entries@.skip(i as int)[0] == self.entries@[i as int]);
                assert(spec_entry_wf(self.entries@[i as int]));
            }
            let rect = self.entries[i].rect;
            if x >= rect.x && x <= rect.x + rect.width as i32 && y >= rect.y && y <= rect.y
                + rect.height as i32 {
                return Some(self.entries[i].handle);
            }
            proof {
                assert(self.entries@.skip(i as int).drop_first() =~= self.entries@.skip(
                    i as int + 1,
                ));
            }
            i = i + 1;
        }
        proof {
            assert(self.entries@.skip(i as int).len() == 0);
        }
        None
    }

    /// Tears the registry down at panel shutdown: removes every entry and
    /// returns the icon identifiers they owned, in order, so the caller
    /// can release every server-side raster.
    pub fn drain(&mut self) -> (freed: Vec<u32>)
        requires
            old(self).wf(),
        ensures
            final(self).entries@ =~= Seq::<TrackedWindow>::empty(),
            freed@ == spec_owned_icons(old(self).entries@),
            final(self).wf(),
    {
        let ghost s0 = self.entries@;
        let empty_list: Vec<u32> = Vec::new();
        proof {
            assert(spec_discovery_handles(Seq::<Discovery>::empty()) =~= Seq::<u32>::empty());
            assert(spec_plan(s0, Seq::<u32>::empty()) =~= Seq::<u32>::empty());
            lemma_freed_all(s0);
        }
        let freed = self.synchronize(&empty_list, Vec::new());
        proof {
            lemma_evict_props(s0, Seq::<u32>::empty());
            let ev = spec_evict(s0, Seq::<u32>::empty());
            assert(ev.len() == 0) by {
                if ev.len() > 0 {
                    assert(Seq::<u32>::empty().contains(ev[0].handle));
                }
            }
            assert(self.entries@ =~= Seq::<TrackedWindow>::empty());
        }
        freed
    }
}

} // verus!
