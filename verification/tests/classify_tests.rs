use dockpanel::{
    atom_matches, is_eligible, is_focusable, is_normal_window, is_override_redirect,
    is_skip_taskbar, probe_followup_length, resolve_title, PropRead, WindowAttrs, ATOM_NONE,
};

const NORMAL: u32 = 7;

fn good_attrs() -> Option<WindowAttrs> {
    Some(WindowAttrs { override_redirect: false, viewable: true })
}

#[test]
fn unreadable_type_property_is_never_eligible() {
    assert!(!is_eligible(&PropRead::Absent, NORMAL, &PropRead::Absent, &good_attrs()));
    assert!(!is_eligible(&PropRead::Failed, NORMAL, &PropRead::Absent, &good_attrs()));
}

#[test]
fn unreadable_attributes_are_never_eligible() {
    let type_ok = PropRead::Words(vec![NORMAL]);
    assert!(!is_eligible(&type_ok, NORMAL, &PropRead::Absent, &None));
}

#[test]
fn skip_taskbar_state_is_never_eligible_regardless_of_type() {
    let type_ok = PropRead::Words(vec![NORMAL]);
    let skip = PropRead::Words(vec![42]);
    assert!(!is_eligible(&type_ok, NORMAL, &skip, &good_attrs()));
}

#[test]
fn normal_unskipped_viewable_window_is_eligible() {
    let type_ok = PropRead::Words(vec![3, NORMAL, 5]);
    assert!(is_eligible(&type_ok, NORMAL, &PropRead::Absent, &good_attrs()));
    assert!(is_eligible(&type_ok, NORMAL, &PropRead::Words(Vec::new()), &good_attrs()));
}

#[test]
fn type_list_without_normal_is_ineligible() {
    let type_other = PropRead::Words(vec![3, 5]);
    assert!(!is_normal_window(&type_other, NORMAL));
    assert!(!is_eligible(&type_other, NORMAL, &PropRead::Absent, &good_attrs()));
}

#[test]
fn unresolved_normal_atom_matches_nothing() {
    // even a type list that happens to hold the sentinel value never passes
    let type_prop = PropRead::Words(vec![ATOM_NONE]);
    assert!(!is_normal_window(&type_prop, ATOM_NONE));
    assert!(!atom_matches(ATOM_NONE, ATOM_NONE));
    assert!(atom_matches(NORMAL, NORMAL));
    assert!(!atom_matches(NORMAL, 8));
}

#[test]
fn failed_skip_read_is_conservative() {
    assert!(is_skip_taskbar(&PropRead::Failed));
    assert!(!is_skip_taskbar(&PropRead::Absent));
    assert!(is_skip_taskbar(&PropRead::Words(vec![1])));
    assert!(!is_skip_taskbar(&PropRead::Words(Vec::new())));
}

#[test]
fn override_redirect_defaults_to_true_on_failure() {
    assert!(is_override_redirect(&None));
    assert!(is_override_redirect(&Some(WindowAttrs { override_redirect: true, viewable: true })));
    assert!(!is_override_redirect(&good_attrs()));
}

#[test]
fn focus_needs_readable_viewable_unredirected() {
    assert!(is_focusable(&good_attrs()));
    assert!(!is_focusable(&None));
    assert!(!is_focusable(&Some(WindowAttrs { override_redirect: true, viewable: true })));
    assert!(!is_focusable(&Some(WindowAttrs { override_redirect: false, viewable: false })));
}

#[test]
fn followup_length_rounds_bytes_up_to_words() {
    assert_eq!(probe_followup_length(0), 0);
    assert_eq!(probe_followup_length(1), 1);
    assert_eq!(probe_followup_length(4), 1);
    assert_eq!(probe_followup_length(5), 2);
    assert_eq!(probe_followup_length(8), 2);
    assert_eq!(probe_followup_length(u32::MAX), 1_073_741_824);
}

#[test]
fn title_prefers_strictly_decodable_net_name() {
    let net = Some(b"Terminal".to_vec());
    let legacy = Some(b"Old".to_vec());
    assert_eq!(resolve_title(&net, &legacy), "Terminal");
}

#[test]
fn title_falls_back_to_legacy_on_invalid_utf8() {
    let net = Some(vec![0xFF, 0xFE]);
    let legacy = Some(b"Old".to_vec());
    assert_eq!(resolve_title(&net, &legacy), "Old");
}

#[test]
fn title_decodes_legacy_permissively() {
    let net = None;
    let legacy = Some(vec![b'A', 0xFF, b'B']);
    assert_eq!(resolve_title(&net, &legacy), "A\u{FFFD}B");
}

#[test]
fn title_defaults_when_both_missing_or_empty() {
    assert_eq!(resolve_title(&None, &None), "Untitled");
    assert_eq!(resolve_title(&Some(Vec::new()), &Some(Vec::new())), "Untitled");
    let legacy = Some(b"L".to_vec());
    assert_eq!(resolve_title(&Some(Vec::new()), &legacy), "L");
}

#[test]
fn title_is_never_empty() {
    assert!(!resolve_title(&None, &None).is_empty());
    assert!(!resolve_title(&Some(vec![0xFF]), &None).is_empty());
}
