use vigb_decoder::cli::{build_config, page_stats_line, parse_dispatch_kinds, CliOptions};
use vigb_decoder::{DecodeStats, DispatchKind, Page, T0DropMode};

fn options() -> CliOptions {
    CliOptions {
        preview: false,
        no_bug4: false,
        no_strict_t0: false,
        keep_drift_blanks: false,
        keep_t1_dispatches: false,
        lazy_bit_loading: false,
        t0_reset: false,
        t0_drop_after_drift: T0DropMode::Disabled,
        t0_drop_kinds: None,
        fail_scan_forward: 0,
        suppress_t2_fail_y_in_cascade: false,
        fail_resync_max: 0,
        fail_resync_lookahead: 5,
        fail_resync_min_confidence: 0,
        fail_resync_budget: 0,
        reset_ref_after_drift: false,
        max_pages: 1024,
    }
}

#[test]
fn dispatch_kinds_parse_trimmed_and_case_blind() {
    assert_eq!(
        parse_dispatch_kinds(" FAIL , v0,Ok,t0,T1 ,bad"),
        Ok(vec![
            DispatchKind::Fail,
            DispatchKind::V0,
            DispatchKind::Success,
            DispatchKind::T0,
            DispatchKind::T1,
            DispatchKind::Bad
        ])
    );
}

#[test]
fn dispatch_kinds_report_the_first_unknown_piece() {
    assert_eq!(
        parse_dispatch_kinds("fail, Bogus ,other"),
        Err("unknown dispatch kind: bogus".to_string())
    );
    assert_eq!(parse_dispatch_kinds(""), Err("unknown dispatch kind: ".to_string()));
    assert_eq!(
        parse_dispatch_kinds("ok,"),
        Err("unknown dispatch kind: ".to_string())
    );
}

#[test]
fn default_options_give_the_canonical_config() {
    let c = build_config(&options()).unwrap();
    assert!(c.bug4 && c.strict_t0 && c.drop_blank_after_drift && c.suppress_t1_all);
    assert!(!c.embed_preview);
    assert_eq!(c.max_pages, 1024);
    assert!(c.t0_drop_kinds.is_none());
}

#[test]
fn options_flip_their_settings() {
    let mut o = options();
    o.preview = true;
    o.no_bug4 = true;
    o.no_strict_t0 = true;
    o.keep_drift_blanks = true;
    o.keep_t1_dispatches = true;
    o.lazy_bit_loading = true;
    o.t0_drop_after_drift = T0DropMode::Marker;
    o.t0_drop_kinds = Some("fail,v0".to_string());
    o.fail_resync_max = 4;
    o.max_pages = 9;
    let c = build_config(&o).unwrap();
    assert!(c.embed_preview && c.lazy_bit_loading);
    assert!(!c.bug4 && !c.strict_t0 && !c.drop_blank_after_drift && !c.suppress_t1_all);
    assert_eq!(c.t0_drop_after_drift, T0DropMode::Marker);
    assert_eq!(c.t0_drop_kinds, Some(vec![DispatchKind::Fail, DispatchKind::V0]));
    assert_eq!(c.fail_resync_max, 4);
    assert_eq!(c.max_pages, 9);
}

#[test]
fn bad_kind_list_fails_the_config() {
    let mut o = options();
    o.t0_drop_kinds = Some("fail,nope".to_string());
    assert_eq!(build_config(&o).err(), Some("unknown dispatch kind: nope".to_string()));
}

#[test]
fn stats_line_lists_every_counter() {
    let mut stats = DecodeStats::default();
    stats.n_ok = 7;
    stats.n_fail = 2;
    stats.max_consecutive_fail = 2;
    stats.first_fail_y = Some(41);
    let page = Page {
        width: 2464,
        height: 3508,
        dpi_x: 300,
        dpi_y: 300,
        row_bytes: 308,
        bitmap: Vec::new(),
        preview: None,
        stats,
    };
    assert_eq!(
        page_stats_line(3, &page),
        "  page 3: 2464x3508 ok=7 v0=0 t0=0 t1=0 fail=2 max_consec_fail=2 first_fail_y=Some(41) resync_probes=0 resync_hits=0 blank_drops_drift=0"
    );
    let mut p2 = page.clone();
    p2.stats = DecodeStats::default();
    assert!(page_stats_line(0, &p2).contains("first_fail_y=None "));
}

#[test]
fn dispatch_kinds_trim_unicode_white_space() {
    assert_eq!(
        parse_dispatch_kinds("\u{3000}Fail,\tV0 \u{2003}").unwrap(),
        vec![DispatchKind::Fail, DispatchKind::V0]
    );
}
