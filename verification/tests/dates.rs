use smc::util::dates::normalize_before;

#[test]
fn date_only_covers_whole_day() {
    let before = normalize_before("2026-07-01".into());
    assert!(*"2026-07-01T23:59:59.999Z" < *before);
    assert!(*"2026-07-02T00:00:00Z" > *before);
}

#[test]
fn full_timestamps_pass_through() {
    assert_eq!(
        normalize_before("2026-07-01T12:00:00Z".into()),
        "2026-07-01T12:00:00Z"
    );
}

#[test]
fn adversarial_short_or_weird_input_untouched() {
    assert_eq!(normalize_before("yesterday".into()), "yesterday");
    assert_eq!(normalize_before("2026/07/01".into()), "2026/07/01");
    assert_eq!(normalize_before("".into()), "");
}

#[test]
fn a_bare_day_gets_its_end() {
    assert_eq!(normalize_before("2026-07-01".into()), "2026-07-01T~");
    // Ten bytes decide, not ten characters.
    assert_eq!(normalize_before("2é26-07-0".into()), "2é26-07-0");
    assert_eq!(normalize_before("éé-01-01".into()), "éé-01-01T~");
}

#[test]
fn a_bound_is_settled_once() {
    for b in ["2026-07-01", "2026-07-01T12:00:00Z", "", "soon"] {
        let once = normalize_before(b.into());
        assert_eq!(normalize_before(once.clone()), once);
    }
}
