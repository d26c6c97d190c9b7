use vigb_decoder::ccitt::{
    black_makeup_entries, black_table, black_term_entries, build_tab7, dispatch_entries,
    two_d_codes, white_makeup_entries, white_table, white_term_entries, CodeTables,
    DispatchEntry,
};

#[test]
fn white_term_zero_is_8b_0x35() {
    let (length, code, _payload) = white_term_entries()[0];
    assert_eq!(length, 8);
    assert_eq!(code, 0x35);
}

#[test]
fn black_term_zero_is_10b_0x37() {
    let (length, code, _payload) = black_term_entries()[0];
    assert_eq!(length, 10);
    assert_eq!(code, 0x37);
}

#[test]
fn two_d_v0_is_1b_1() {
    let (length, code) = two_d_codes()[3];
    assert_eq!(length, 1);
    assert_eq!(code, 0x01);
}

#[test]
fn dispatch_order_matches_two_d() {
    let dispatch = dispatch_entries();
    assert_eq!(dispatch.len(), two_d_codes().len());
    assert_eq!(dispatch[3], DispatchEntry::V(0));
    assert_eq!(dispatch[7], DispatchEntry::H);
    assert_eq!(dispatch[8], DispatchEntry::P);
}

#[test]
fn tab7_lookup_resolves_v0() {
    let tab7 = build_tab7();
    for top7 in 0x40..=0x7F {
        let entry = tab7[top7 as usize].expect("V0 must populate top half");
        assert_eq!(entry.dispatch_idx, 3);
        assert_eq!(entry.code_len, 1);
    }
}

#[test]
fn white_table_decodes_short_run() {
    let entry = white_table()[0x0E00].expect("white run 2 must lookup");
    assert_eq!(entry.run, 2);
    assert_eq!(entry.code_len, 4);
}

#[test]
fn white_term_entries_count() {
    assert_eq!(white_term_entries().len(), 64);
}

#[test]
fn black_term_entries_count() {
    assert_eq!(black_term_entries().len(), 64);
}

#[test]
fn white_makeup_entries_count() {
    assert_eq!(white_makeup_entries().len(), 40);
}

#[test]
fn black_makeup_entries_count() {
    assert_eq!(black_makeup_entries().len(), 40);
}

#[test]
fn white_term_run_lengths_are_sequential() {
    for (i, &(_len, _code, run)) in white_term_entries().iter().enumerate() {
        assert_eq!(run, i as u32, "white terminating run at index {i} should be {i}");
    }
}

#[test]
fn black_term_run_lengths_are_sequential() {
    for (i, &(_len, _code, run)) in black_term_entries().iter().enumerate() {
        assert_eq!(run, i as u32, "black terminating run at index {i} should be {i}");
    }
}

#[test]
fn two_d_v_r1_is_3b_0x03() {
    let (length, code) = two_d_codes()[4];
    assert_eq!(length, 3);
    assert_eq!(code, 0x03);
}

#[test]
fn two_d_h_is_3b_0x01() {
    let (length, code) = two_d_codes()[7];
    assert_eq!(length, 3);
    assert_eq!(code, 0x01);
}

#[test]
fn two_d_p_is_4b_0x01() {
    let (length, code) = two_d_codes()[8];
    assert_eq!(length, 4);
    assert_eq!(code, 0x01);
}

#[test]
fn white_makeup_64_is_5b_0x1b() {
    let &(length, code, run) = &white_makeup_entries()[0];
    assert_eq!(length, 5);
    assert_eq!(code, 0x1B);
    assert_eq!(run, 64);
}

#[test]
fn black_makeup_64_is_10b_0x0f() {
    let &(length, code, run) = &black_makeup_entries()[0];
    assert_eq!(length, 10);
    assert_eq!(code, 0x0F);
    assert_eq!(run, 64);
}

#[test]
fn extended_makeup_1792_shared() {
    let white_ext = white_makeup_entries().iter().find(|&&(_, _, r)| r == 1792).copied();
    let black_ext = black_makeup_entries().iter().find(|&&(_, _, r)| r == 1792).copied();
    assert_eq!(white_ext, black_ext);
    let (len, code, _) = white_ext.expect("1792 must be in white makeup");
    assert_eq!(len, 11);
    assert_eq!(code, 0x08);
}

#[test]
fn black_table_run1_decodes() {
    let entry = black_table()[0x0800].expect("black run 1 must decode");
    assert_eq!(entry.run, 1);
    assert_eq!(entry.code_len, 3);
}

#[test]
fn code_tables_bundle_the_lookups() {
    let t = CodeTables::new();
    assert_eq!(t.tab7.len(), 128);
    assert_eq!(t.white.len(), 8192);
    assert_eq!(t.black.len(), 8192);
    assert_eq!(t.dispatch.len(), 9);
    // P = 0001: top-7 prefixes 0b0001xxx.
    let p = t.tab7[0b0001000].expect("P must resolve");
    assert_eq!(p.dispatch_idx, 8);
    assert_eq!(p.code_len, 4);
    // No code starts with seven zero bits.
    assert!(t.tab7[0].is_none());
}
