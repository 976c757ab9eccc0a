use ecagen::row::Row;
use ecagen::rule::Rule;

/// The value of the line at `coord` for a row given as offset and window:
/// window lookup inside, constant fill outside.
fn line_value(offset: i64, window: &[bool], coord: i64) -> bool {
    if coord < offset {
        window[0]
    } else if coord >= offset + window.len() as i64 {
        window[window.len() - 1]
    } else {
        window[(coord - offset) as usize]
    }
}

fn assert_skirt(window: &[bool]) {
    let n = window.len();
    assert!(n >= 6);
    assert_eq!(window[0], window[1]);
    assert_eq!(window[0], window[2]);
    assert_eq!(window[n - 1], window[n - 2]);
    assert_eq!(window[n - 1], window[n - 3]);
}

#[test]
fn single_seed_window() {
    let r = Row::from_single(true);
    let (offset, w) = r.get_state();
    assert_eq!(offset, -3);
    assert_eq!(w, vec![false, false, false, true, false, false, false]);
    let r = Row::from_single(false);
    let (offset, w) = r.get_state();
    assert_eq!(offset, -3);
    assert_eq!(w, vec![true, true, true, false, true, true, true]);
}

#[test]
fn new_is_single_true_seed() {
    let (offset, w) = Row::new().get_state();
    let (offset2, w2) = Row::from_single(true).get_state();
    assert_eq!(offset, offset2);
    assert_eq!(w, w2);
}

#[test]
fn from_state_pads_and_centers() {
    let r = Row::from_state(&[true, false, true, true, false]);
    let (offset, w) = r.get_state();
    assert_eq!(offset, -5);
    assert_eq!(
        w,
        vec![
            true, true, true, true, false, true, true, false, false, false, false
        ]
    );
    let r = Row::from_state(&[true]);
    let (offset, w) = r.get_state();
    assert_eq!(offset, -3);
    assert_eq!(w, vec![true; 7]);
}

#[test]
fn skirt_invariant_everywhere() {
    // Every constructor and every step keeps three equal cells at each end.
    assert_skirt(&Row::new().get_state().1);
    assert_skirt(&Row::from_single(false).get_state().1);
    assert_skirt(&Row::from_state(&[true, false, false, true]).get_state().1);
    for code in [30u8, 90, 110, 184] {
        let rule = Rule::new(code);
        let mut row = Row::from_single(true);
        for _ in 0..8 {
            row = row.next(&rule);
            assert_skirt(&row.get_state().1);
        }
    }
}

#[test]
fn step_grows_window_by_two() {
    let rule = Rule::new(110);
    let mut row = Row::from_single(true);
    let mut len = row.get_state().1.len();
    assert_eq!(len, 7);
    for _ in 0..5 {
        row = row.next(&rule);
        let (offset, w) = row.get_state();
        assert_eq!(w.len(), len + 2);
        len = w.len();
        assert_eq!(offset, -3 - 2 * ((len as i64 - 7) / 2));
    }
}

#[test]
fn rule_110_one_step_from_single() {
    // Manually: the head neighborhood (0,0,0) gives 0, then (0,0,1) gives 1,
    // (0,1,0) gives 1, (1,0,0) gives 0, and the tail neighborhood (0,0,0)
    // gives 0; head and tail are each replicated three times.
    let row = Row::from_single(true).next(&Rule::new(110));
    let (offset, w) = row.get_state();
    assert_eq!(offset, -5);
    assert_eq!(
        w,
        vec![
            false, false, false, true, true, false, false, false, false
        ]
    );
}

#[test]
fn compress_noop_when_runs_are_exactly_skirts() {
    // Under rule 90 one step of the single seed gives 0 0 0 1 0 1 0 0 0:
    // the constant run at each end is exactly the three-cell skirt.
    let mut row = Row::from_single(true).next(&Rule::new(90));
    let (offset_before, w_before) = row.get_state();
    assert_eq!(
        w_before,
        vec![
            false, false, false, true, false, true, false, false, false
        ]
    );
    row.compress();
    let (offset_after, w_after) = row.get_state();
    assert_eq!(offset_before, offset_after);
    assert_eq!(w_before, w_after);
}

#[test]
fn compress_trims_and_shifts_offset() {
    let mut row = Row::from_state(&[false, true, false, false, false]);
    let (offset, w) = row.get_state();
    assert_eq!(offset, -5);
    assert_eq!(w.len(), 11);
    row.compress();
    let (offset, w) = row.get_state();
    // One cell left the head, so the offset advanced by one.
    assert_eq!(offset, -4);
    assert_eq!(w, vec![false, false, false, true, false, false, false]);
}

#[test]
fn compress_is_idempotent() {
    let mut row = Row::from_state(&[true, false, false, true, false, false, false, false]);
    row.compress();
    let (offset1, w1) = row.get_state();
    row.compress();
    let (offset2, w2) = row.get_state();
    assert_eq!(offset1, offset2);
    assert_eq!(w1, w2);
}

#[test]
fn compress_preserves_line_values() {
    let mut row = Row::from_state(&[true, true, false, true, false, false, false, false, false]);
    let (offset_before, w_before) = row.get_state();
    row.compress();
    let (offset_after, w_after) = row.get_state();
    for coord in -32i64..32 {
        assert_eq!(
            line_value(offset_before, &w_before, coord),
            line_value(offset_after, &w_after, coord)
        );
    }
}
