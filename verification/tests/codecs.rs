use ecagen::codec::ImportError;
use ecagen::row::Row;

#[test]
fn export_single_seed_exact_bytes() {
    let row = Row::from_single(true);
    let mut out: Vec<u8> = Vec::new();
    row.export(&mut out);
    // Offset -3 in big-endian two's complement, one payload byte, then the
    // seven cells 0001000 padded with a trailing 0 from the tail fill.
    assert_eq!(
        out,
        vec![
            0xff, 0xff, 0xff, 0xff, 0xff, 0xff, 0xff, 0xfd, 0x00, 0x00, 0x00, 0x00, 0x00, 0x00,
            0x00, 0x01, 0b0001_0000,
        ]
    );
}

#[test]
fn export_pads_final_byte_with_tail_value() {
    // A window ending in 1-cells must pad the last byte with 1-bits, not 0.
    let row = Row::from_state(&[false, true]);
    let mut out: Vec<u8> = Vec::new();
    row.export(&mut out);
    // Window is 0 0 0 0 1 1 1 1, already a full byte here, so also check a
    // seven-cell all-ones window: its one payload byte must be 0xff.
    assert_eq!(out[16], 0b0000_1111);
    let row = Row::from_state(&[true]);
    let mut out: Vec<u8> = Vec::new();
    row.export(&mut out);
    assert_eq!(out[15], 1);
    assert_eq!(out[16], 0xff);
}

#[test]
fn export_appends_back_to_back() {
    let row = Row::from_single(true);
    let mut out: Vec<u8> = Vec::new();
    row.export(&mut out);
    row.export(&mut out);
    assert_eq!(out.len(), 34);
    assert_eq!(out[..17], out[17..]);
}

#[test]
fn import_roundtrip_multiple_of_8() {
    // An eight-cell window: decode(encode(row)) reproduces it exactly.
    let row = Row::from_state(&[true, false]);
    let (offset, w) = row.get_state();
    assert_eq!(w.len(), 8);
    let mut out: Vec<u8> = Vec::new();
    row.export(&mut out);
    let (back, used) = Row::import(&out).unwrap();
    assert_eq!(used, out.len());
    let (offset2, w2) = back.get_state();
    assert_eq!(offset, offset2);
    assert_eq!(w, w2);
}

#[test]
fn import_roundtrip_negative_offset() {
    let row = Row::from_state(&[true, false, true, false, true, false, true, false, true, false]);
    let (offset, w) = row.get_state();
    assert_eq!(offset, -8);
    assert_eq!(w.len(), 16);
    let mut out: Vec<u8> = Vec::new();
    row.export(&mut out);
    let (back, _) = Row::import(&out).unwrap();
    let (offset2, w2) = back.get_state();
    assert_eq!(offset, offset2);
    assert_eq!(w, w2);
}

#[test]
fn import_pads_tail_when_not_multiple_of_8() {
    // A seven-cell window decodes to its eight-cell padding: the same line,
    // one more explicit tail cell.
    let row = Row::from_single(true);
    let (offset, w) = row.get_state();
    let mut out: Vec<u8> = Vec::new();
    row.export(&mut out);
    let (back, _) = Row::import(&out).unwrap();
    let (offset2, w2) = back.get_state();
    assert_eq!(offset, offset2);
    assert_eq!(w2.len(), 8);
    assert_eq!(&w2[..7], &w[..]);
    assert_eq!(w2[7], w[6]);
}

#[test]
fn import_reads_records_in_turn() {
    let first = Row::from_single(true);
    let second = Row::from_state(&[true, false]);
    let mut out: Vec<u8> = Vec::new();
    first.export(&mut out);
    second.export(&mut out);
    let (a, used_a) = Row::import(&out).unwrap();
    let (b, used_b) = Row::import(&out[used_a..]).unwrap();
    assert_eq!(used_a + used_b, out.len());
    assert_eq!(a.get_state().0, -3);
    assert_eq!(b.get_state().1, second.get_state().1);
}

#[test]
fn import_rejects_truncated_header() {
    assert!(matches!(Row::import(&[]), Err(ImportError::Truncated)));
    assert!(matches!(Row::import(&[0u8; 15]), Err(ImportError::Truncated)));
}

#[test]
fn import_rejects_truncated_payload() {
    // Header declares five payload bytes; only two follow.
    let mut data = vec![0u8; 8];
    data.extend_from_slice(&[0, 0, 0, 0, 0, 0, 0, 5]);
    data.extend_from_slice(&[0xff, 0xff]);
    assert!(matches!(Row::import(&data), Err(ImportError::Truncated)));
}

#[test]
fn import_rejects_empty_window() {
    // A header declaring zero payload bytes decodes to an empty window.
    let data = vec![0u8; 16];
    assert!(matches!(Row::import(&data), Err(ImportError::InvalidWindow)));
}

#[test]
fn import_rejects_broken_skirt() {
    // 10101010 has unequal cells among its first three.
    let mut data = vec![0u8; 8];
    data.extend_from_slice(&[0, 0, 0, 0, 0, 0, 0, 1]);
    data.push(0b1010_1010);
    assert!(matches!(Row::import(&data), Err(ImportError::InvalidWindow)));
}
