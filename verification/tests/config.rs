use std::str::FromStr;
use vigb_decoder::config::parse_t0_drop_mode;
use vigb_decoder::{Config, DispatchKind, T0DropMode};

#[test]
fn defaults_are_canonical() {
    let c = Config::default();
    assert!(c.bug4);
    assert!(c.strict_t0);
    assert!(c.drop_blank_after_drift);
    assert!(c.suppress_t1_all);
    assert!(!c.embed_preview);
    assert!(!c.lazy_bit_loading);
    assert!(!c.t0_reset);
    assert_eq!(c.t0_drop_after_drift, T0DropMode::Disabled);
    assert!(c.t0_drop_kinds.is_none());
    assert_eq!(c.fail_scan_forward, 0);
    assert!(!c.suppress_t2_fail_y_in_cascade);
    assert_eq!(c.fail_resync_max, 0);
    assert_eq!(c.fail_resync_lookahead, 5);
    assert_eq!(c.fail_resync_min_confidence, 0);
    assert_eq!(c.fail_resync_budget, 0);
    assert!(!c.reset_ref_after_drift);
}

#[test]
fn builder_round_trip() {
    let c = Config::builder()
        .bug4(false)
        .fail_resync_max(4)
        .reset_ref_after_drift(true)
        .build();
    assert!(!c.bug4);
    assert_eq!(c.fail_resync_max, 4);
    assert!(c.reset_ref_after_drift);
    assert!(c.strict_t0);
}

#[test]
fn t0_drop_mode_parsing() {
    assert_eq!("none".parse::<T0DropMode>().unwrap(), T0DropMode::Disabled);
    assert_eq!("marker".parse::<T0DropMode>().unwrap(), T0DropMode::Marker);
    assert_eq!("full".parse::<T0DropMode>().unwrap(), T0DropMode::Full);
    assert!("bogus".parse::<T0DropMode>().is_err());
}

#[test]
fn t0_drop_mode_parses() {
    assert_eq!(T0DropMode::from_str("marker").unwrap(), T0DropMode::Marker);
    assert_eq!(T0DropMode::from_str("full").unwrap(), T0DropMode::Full);
    assert_eq!(T0DropMode::from_str("none").unwrap(), T0DropMode::Disabled);
    assert!(T0DropMode::from_str("bogus").is_err());
}

#[test]
fn t0_drop_mode_empty_name_and_message() {
    assert_eq!(parse_t0_drop_mode(""), Ok(T0DropMode::Disabled));
    assert_eq!(
        parse_t0_drop_mode("Marker"),
        Err("invalid t0-drop mode: Marker".to_string())
    );
    assert_eq!(T0DropMode::default(), T0DropMode::Disabled);
}

#[test]
fn default_page_cap_is_1024() {
    assert_eq!(Config::default().max_pages, 1024);
    assert_eq!(Config::builder().max_pages(7).build().max_pages, 7);
}

#[test]
fn every_setter_sets_only_its_field() {
    let c = Config::builder()
        .strict_t0(false)
        .drop_blank_after_drift(false)
        .suppress_t1_all(false)
        .embed_preview(true)
        .lazy_bit_loading(true)
        .t0_reset(true)
        .t0_drop_after_drift(T0DropMode::Full)
        .t0_drop_kinds(Some(vec![DispatchKind::Fail, DispatchKind::V0]))
        .fail_scan_forward(3)
        .suppress_t2_fail_y_in_cascade(true)
        .fail_resync_lookahead(9)
        .fail_resync_min_confidence(2)
        .fail_resync_budget(11)
        .build();
    assert!(c.bug4);
    assert!(!c.strict_t0);
    assert!(!c.drop_blank_after_drift);
    assert!(!c.suppress_t1_all);
    assert!(c.embed_preview);
    assert!(c.lazy_bit_loading);
    assert!(c.t0_reset);
    assert_eq!(c.t0_drop_after_drift, T0DropMode::Full);
    assert_eq!(c.t0_drop_kinds, Some(vec![DispatchKind::Fail, DispatchKind::V0]));
    assert_eq!(c.fail_scan_forward, 3);
    assert!(c.suppress_t2_fail_y_in_cascade);
    assert_eq!(c.fail_resync_max, 0);
    assert_eq!(c.fail_resync_lookahead, 9);
    assert_eq!(c.fail_resync_min_confidence, 2);
    assert_eq!(c.fail_resync_budget, 11);
    assert!(!c.reset_ref_after_drift);
    assert_eq!(c.max_pages, 1024);
}
