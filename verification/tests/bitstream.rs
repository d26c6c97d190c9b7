use vigb_decoder::bitstream::BitCursor;

#[test]
fn eager_peek_consume_round_trip() {
    // 0xAB 0xCD 0xEF 0x12
    let data = &[0xAB, 0xCD, 0xEF, 0x12];
    let mut bc = BitCursor::new(data, false);
    assert_eq!(bc.peek(8).unwrap(), 0xAB);
    bc.consume(4);
    assert_eq!(bc.peek(8).unwrap(), 0xBC);
    bc.consume(8);
    assert_eq!(bc.peek(4).unwrap(), 0xD);
}

#[test]
fn lazy_and_eager_consume_match() {
    let data = &[0x80, 0xF8, 0x42, 0x17, 0xC0, 0x00];
    let mut e = BitCursor::new(data, false);
    let mut l = BitCursor::new(data, true);
    for n in [3, 5, 7, 13, 8, 4] {
        assert_eq!(
            e.peek(n).unwrap(),
            l.peek(n).unwrap(),
            "peek({}) diverges",
            n
        );
        e.consume(n);
        l.consume(n);
    }
    assert_eq!(e.consumed_bits(), l.consumed_bits());
}

#[test]
fn underrun_returns_none() {
    let data = &[0xFF];
    let mut bc = BitCursor::new(data, true);
    let _ = bc.peek(8).unwrap();
    bc.consume(8);
    assert!(bc.peek(1).is_none());
}

#[test]
fn pos_bytes_advances_on_consume() {
    let data = &[0x12, 0x34, 0x56, 0x78];
    let mut bc = BitCursor::new(data, false);
    let _ = bc.peek(8).unwrap();
    bc.consume(8);
    assert_eq!(bc.consumed_bits(), 8);
}

#[test]
fn eager_reads_zeros_past_the_end() {
    // One byte of data: an eager cursor still answers a 16-bit peek, with
    // zero bits past the end; a lazy one refuses.
    let data = &[0xA5];
    let mut e = BitCursor::new(data, false);
    assert_eq!(e.peek(16), Some(0xA500));
    let mut l = BitCursor::new(data, true);
    assert_eq!(l.peek(16), None);
    assert_eq!(l.peek(8), Some(0xA5));
}

#[test]
fn with_start_begins_at_the_given_byte() {
    let data = &[0x00, 0x00, 0xC3, 0x3C];
    let mut bc = BitCursor::with_start(data, 2, false);
    assert_eq!(bc.peek(8), Some(0xC3));
    bc.consume(8);
    assert_eq!(bc.peek(8), Some(0x3C));
    // Eager refill loads two bytes at a time, reading zeros past the end.
    assert_eq!(bc.consumed_bits(), 8);
    assert_eq!(bc.next_load_byte(), 6);
    assert_eq!(bc.bits_buffered(), 24);
}

#[test]
fn eager_peek_supplies_up_to_32_bits() {
    // A fresh eager cursor answers any width up to 32 bits.
    let data = &[0xAB, 0xCD, 0xEF, 0x12];
    let mut c = BitCursor::new(data, false);
    assert_eq!(c.peek(17), Some(0x1579B));
    assert_eq!(c.peek(32), Some(0xABCD_EF12));
    c.consume(20);
    // 12 bits of input left; the rest of a 32-bit window is zero padding.
    assert_eq!(c.peek(32), Some(0xF120_0000));
    assert_eq!(c.consumed_bits(), 20);
    // The lazy cursor refuses what the input cannot supply.
    let mut l = BitCursor::new(data, true);
    assert_eq!(l.peek(32), Some(0xABCD_EF12));
    l.consume(20);
    assert_eq!(l.peek(13), None);
    assert_eq!(l.peek(12), Some(0xF12));
}
