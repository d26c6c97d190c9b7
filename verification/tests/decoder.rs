use vigb_decoder::ccitt::CodeTables;
use vigb_decoder::decoder::{decomp_line, table_from_raw, table_to_row};

#[test]
fn all_white_line_returns_minimal_table() {
    let width: i32 = 16;
    let ref_table: Vec<i32> = vec![
        -1, width, width, width, width, width, width, width, width, width, width, width, width,
        width, width, width, width,
    ];
    let data = [0x80u8];
    let tables = CodeTables::new();
    let (table, consumed) = decomp_line(&data, 0, width, &ref_table, false, true, &tables);
    assert!(consumed >= 1);
    let last_two = &table[table.len() - 2..];
    assert_eq!(last_two, &[width, width]);
}

#[test]
fn fail_returns_all_white_fallback() {
    let width: i32 = 16;
    let ref_table = vec![-1, width, width, width, width];
    let tables = CodeTables::new();
    let (table, _consumed) = decomp_line(&[], 0, width, &ref_table, false, true, &tables);
    assert_eq!(table, vec![-1, width, width, width]);
}

#[test]
fn single_v0_line_consumes_one_bit() {
    // V(0) against an all-white reference ends the line at once: the
    // table holds one transition at the width, and one bit was read.
    let width: i32 = 16;
    let ref_table = vec![-1, width, width, width, width];
    let tables = CodeTables::new();
    let (table, consumed) = decomp_line(&[0x80], 0, width, &ref_table, false, true, &tables);
    assert_eq!(table, vec![-1, 16, 16, 16]);
    assert_eq!(consumed, 1);
}

#[test]
fn horizontal_mode_line_decodes_runs() {
    // H (001), white run 2 (0111), black run 3 (10), then V(0) (1) against
    // an all-white reference of width 8: transitions at 2 and 5, then
    // the line closes at 8.
    // Bits: 001 0111 10 1 -> 0010_1111 0100_0000.
    let width: i32 = 8;
    let ref_table = vec![-1, 8, 8, 8, 8];
    let tables = CodeTables::new();
    let (table, consumed) =
        decomp_line(&[0b0010_1111, 0b0100_0000], 0, width, &ref_table, false, true, &tables);
    assert_eq!(table, vec![-1, 2, 5, 8, 8, 8]);
    assert_eq!(consumed, 10);
}

#[test]
fn lazy_cursor_fails_where_eager_reads_zeros() {
    // Seven zero bits never start a code: an eager decode of an empty
    // stream fails on them, a lazy one fails on the missing input.
    let width: i32 = 8;
    let ref_table = vec![-1, 8, 8, 8, 8];
    let tables = CodeTables::new();
    let eager = decomp_line(&[], 0, width, &ref_table, false, true, &tables);
    let lazy = decomp_line(&[], 0, width, &ref_table, true, true, &tables);
    assert_eq!(eager.0, vec![-1, 8, 8, 8]);
    assert_eq!(lazy.0, vec![-1, 8, 8, 8]);
    assert_eq!(lazy.1, 0);
}

#[test]
fn table_to_row_paints_black_runs() {
    // Black runs [2, 5) and [9, 12) of a 16-pixel row.
    let row = table_to_row(&[-1, 2, 5, 9, 12, 16, 16], 16, 4);
    assert_eq!(row, vec![0b0011_1000, 0b0111_0000, 0, 0]);
}

#[test]
fn table_to_row_clamps_to_width() {
    // A run past the width stops at it; the padding stays white.
    let row = table_to_row(&[-1, 6, 40, 40, 40], 10, 4);
    assert_eq!(row, vec![0b0000_0011, 0b1100_0000, 0, 0]);
}

#[test]
fn table_from_raw_lists_transitions() {
    let table = table_from_raw(&[0b0011_1000, 0b0111_0000], 16);
    assert_eq!(table, vec![-1, 2, 5, 9, 12, 16, 16]);
    let white = table_from_raw(&[0, 0], 16);
    assert_eq!(white, vec![-1, 16, 16]);
}

#[test]
fn raw_row_round_trips_through_its_table() {
    // Rendering the table of a raw row gives the row back (within width).
    let rows: [[u8; 4]; 4] = [
        [0xFF, 0x00, 0xA5, 0x5A],
        [0x80, 0x01, 0x7E, 0x00],
        [0x00, 0x00, 0x00, 0x00],
        [0xFF, 0xFF, 0xFF, 0xFF],
    ];
    for raw in rows.iter() {
        let table = table_from_raw(raw, 32);
        let back = table_to_row(&table, 32, 4);
        assert_eq!(&back[..], &raw[..]);
    }
    // With a width that is not a multiple of 8, pixels past it are white.
    let table = table_from_raw(&[0xFF, 0xFF], 12);
    assert_eq!(table_to_row(&table, 12, 4), vec![0xFF, 0xF0, 0, 0]);
}

#[test]
fn lazy_and_eager_lines_agree_with_input_to_spare() {
    // The H-mode line from above, followed by two spare bytes: the lazy
    // decoder finishes 22 bits before the end, so both refills agree.
    let width: i32 = 8;
    let ref_table = vec![-1, 8, 8, 8, 8];
    let tables = CodeTables::new();
    let data = [0b0010_1111, 0b0100_0000, 0, 0];
    let eager = decomp_line(&data, 0, width, &ref_table, false, true, &tables);
    let lazy = decomp_line(&data, 0, width, &ref_table, true, true, &tables);
    assert_eq!(eager, lazy);
    assert_eq!(lazy.0, vec![-1, 2, 5, 8, 8, 8]);
}

#[test]
fn every_line_table_opens_with_minus_one_and_closes_with_width_twice() {
    let width: i32 = 8;
    let ref_table = vec![-1, width, width, width];
    let tables = CodeTables::new();
    let inputs: [&[u8]; 4] = [&[0b0010_1111, 0b0100_0000], &[0x80], &[0x00, 0x00], &[0xFF, 0xFF, 0xFF]];
    for data in inputs {
        for lazy in [false, true] {
            let (t, c) = decomp_line(data, 0, width, &ref_table, lazy, true, &tables);
            assert!(t.len() >= 3);
            assert_eq!(t[0], -1);
            assert_eq!(&t[t.len() - 2..], &[width, width]);
            assert!(c >= 0);
        }
    }
    // A code lookup failure gives exactly the all-white fallback.
    let (t, _) = decomp_line(&[0x00, 0x00], 0, width, &ref_table, false, true, &tables);
    assert_eq!(t, vec![-1, width, width, width]);
}
