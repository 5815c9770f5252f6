use dockpanel::{decode_icon, Discovery, Registry};

fn disc(handle: u32, eligible: bool, title: &str, icon: Option<u32>) -> Discovery {
    Discovery { handle, eligible, title: title.to_string(), icon }
}

fn run_sync(reg: &mut Registry, list: &[u32], outcomes: &[(bool, &str, Option<u32>)]) -> Vec<u32> {
    let list: Vec<u32> = list.to_vec();
    let plan = reg.sync_plan(&list);
    assert_eq!(plan.len(), outcomes.len(), "test scenario must cover the plan");
    let discoveries: Vec<Discovery> = plan
        .iter()
        .zip(outcomes.iter())
        .map(|(&h, &(eligible, title, icon))| disc(h, eligible, title, icon))
        .collect();
    reg.synchronize(&list, discoveries)
}

#[test]
fn new_registry_is_empty() {
    let reg = Registry::new();
    assert!(reg.entries.is_empty());
}

#[test]
fn synchronize_inserts_eligible_windows_in_list_order() {
    let mut reg = Registry::new();
    let freed = run_sync(
        &mut reg,
        &[10, 20, 30],
        &[(true, "a", Some(1)), (false, "b", None), (true, "c", None)],
    );
    assert!(freed.is_empty());
    let handles: Vec<u32> = reg.entries.iter().map(|e| e.handle).collect();
    assert_eq!(handles, vec![10, 30]);
    assert_eq!(reg.entries[0].title, "a");
    assert_eq!(reg.entries[0].icon, Some(1));
    assert_eq!(reg.entries[1].icon, None);
}

#[test]
fn layout_stacks_fixed_slots_downward() {
    let mut reg = Registry::new();
    run_sync(
        &mut reg,
        &[10, 20],
        &[(true, "a", Some(1)), (true, "b", Some(2))],
    );
    let r0 = reg.entries[0].rect;
    assert_eq!((r0.x, r0.y, r0.width, r0.height), (0, 4, 32, 32));
    let r1 = reg.entries[1].rect;
    assert_eq!((r1.x, r1.y, r1.width, r1.height), (0, 40, 32, 32));
}

#[test]
fn synchronize_twice_is_idempotent() {
    let mut reg = Registry::new();
    run_sync(
        &mut reg,
        &[10, 20],
        &[(true, "term", Some(7)), (false, "skip", None)],
    );
    let before: Vec<(u32, String, Option<u32>, (i32, i32, u32, u32))> = reg
        .entries
        .iter()
        .map(|e| {
            (e.handle, e.title.clone(), e.icon, (e.rect.x, e.rect.y, e.rect.width, e.rect.height))
        })
        .collect();
    // nothing changed on the server: window 20 still fails its checks
    let freed = run_sync(&mut reg, &[10, 20], &[(false, "skip", None)]);
    assert!(freed.is_empty());
    let after: Vec<(u32, String, Option<u32>, (i32, i32, u32, u32))> = reg
        .entries
        .iter()
        .map(|e| {
            (e.handle, e.title.clone(), e.icon, (e.rect.x, e.rect.y, e.rect.width, e.rect.height))
        })
        .collect();
    assert_eq!(before, after);
}

#[test]
fn eviction_releases_owned_icons() {
    let mut reg = Registry::new();
    run_sync(
        &mut reg,
        &[10, 20],
        &[(true, "a", Some(100)), (true, "b", Some(200))],
    );
    // window 10 disappears from the client list
    let freed = run_sync(&mut reg, &[20], &[]);
    assert_eq!(freed, vec![100]);
    let handles: Vec<u32> = reg.entries.iter().map(|e| e.handle).collect();
    assert_eq!(handles, vec![20]);
    // the same handle reappearing is planned again, for a fresh decode
    let plan = reg.sync_plan(&vec![10, 20]);
    assert_eq!(plan, vec![10]);
    let freed = run_sync(&mut reg, &[10, 20], &[(true, "a2", Some(101))]);
    assert!(freed.is_empty());
    let handles: Vec<u32> = reg.entries.iter().map(|e| e.handle).collect();
    assert_eq!(handles, vec![20, 10]);
    assert_eq!(reg.entries[1].icon, Some(101));
}

#[test]
fn eviction_of_iconless_entry_frees_nothing() {
    let mut reg = Registry::new();
    run_sync(&mut reg, &[10], &[(true, "a", None)]);
    let freed = run_sync(&mut reg, &[], &[]);
    assert!(freed.is_empty());
    assert!(reg.entries.is_empty());
}

#[test]
fn plan_skips_tracked_and_duplicate_handles() {
    let mut reg = Registry::new();
    run_sync(&mut reg, &[10], &[(true, "a", None)]);
    let plan = reg.sync_plan(&vec![10, 20, 20, 30]);
    assert_eq!(plan, vec![20, 30]);
}

#[test]
fn duplicate_listed_handle_is_tracked_once() {
    let mut reg = Registry::new();
    let freed = run_sync(&mut reg, &[10, 10], &[(true, "a", Some(1))]);
    assert!(freed.is_empty());
    let handles: Vec<u32> = reg.entries.iter().map(|e| e.handle).collect();
    assert_eq!(handles, vec![10]);
    // and the duplicate survives the next pass untouched
    let freed = run_sync(&mut reg, &[10, 10], &[]);
    assert!(freed.is_empty());
    assert_eq!(reg.entries.len(), 1);
}

#[test]
fn end_to_end_single_eligible_window() {
    // client list [10, 20]: window 10 is type-normal, not skip-taskbar,
    // not override-redirect, and carries a 16x16 icon; window 20 fails
    // the type check
    let mut icon_stream: Vec<u32> = vec![16, 16];
    for _ in 0..256 {
        icon_stream.push(0x0055_66AA);
    }
    let raster = decode_icon(&icon_stream).expect("icon must decode");
    assert_eq!(raster.len(), 32 * 32 * 4);
    for p in raster.chunks(4) {
        assert_eq!(p, &[0x55, 0x66, 0xAA, 0xFF]);
    }
    let mut reg = Registry::new();
    let uploaded_id = 99;
    let freed = run_sync(
        &mut reg,
        &[10, 20],
        &[(true, "term", Some(uploaded_id)), (false, "other", None)],
    );
    assert!(freed.is_empty());
    let handles: Vec<u32> = reg.entries.iter().map(|e| e.handle).collect();
    assert_eq!(handles, vec![10]);
    assert_eq!(reg.entries[0].icon, Some(uploaded_id));
    let r = reg.entries[0].rect;
    assert_eq!((r.x, r.y, r.width, r.height), (0, 4, 32, 32));
}

#[test]
fn click_routing_inclusive_corners() {
    let mut reg = Registry::new();
    run_sync(&mut reg, &[10], &[(true, "term", Some(99))]);
    // top-left corner of the single slot, inclusive
    assert_eq!(reg.route_click(0, 4), Some(10));
    // bottom-right corner, inclusive
    assert_eq!(reg.route_click(32, 36), Some(10));
    // one pixel beyond the bottom-right corner
    assert_eq!(reg.route_click(33, 37), None);
    // just above the top margin
    assert_eq!(reg.route_click(0, 3), None);
}

#[test]
fn click_routing_picks_first_in_layout_order() {
    let mut reg = Registry::new();
    run_sync(
        &mut reg,
        &[10, 20],
        &[(true, "a", Some(1)), (true, "b", Some(2))],
    );
    assert_eq!(reg.route_click(5, 10), Some(10));
    assert_eq!(reg.route_click(5, 45), Some(20));
    assert_eq!(reg.route_click(5, 200), None);
}

#[test]
fn drain_returns_all_owned_icons_and_empties() {
    let mut reg = Registry::new();
    run_sync(
        &mut reg,
        &[10, 20, 30],
        &[(true, "a", Some(1)), (true, "b", None), (true, "c", Some(3))],
    );
    let freed = reg.drain();
    assert_eq!(freed, vec![1, 3]);
    assert!(reg.entries.is_empty());
}
