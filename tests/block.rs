use rs_edlib::block::{Block, HIGH_BIT_MASK, WORD_SIZE};

#[test]
fn advance_on_full_match_column() {
    // Initial column (all +1 deltas, score 64), every row matches, hin = +1.
    let mut b = Block { p: u64::MAX, m: 0, score: 64 };
    let hout = b.calculate_hout_delta(u64::MAX, 1);
    // Column 0 when every row matches: D[i][0] = i, so the last row drops from 64 to 63.
    assert_eq!(hout, -1);
    assert_eq!(b.score, 63);
    assert_eq!(b.p & b.m, 0);
    let cells = b.get_cell_values();
    assert_eq!(cells[63], 0);
    assert_eq!(cells[0], 63);
}

#[test]
fn advance_on_mismatch_column() {
    let mut b = Block { p: u64::MAX, m: 0, score: 64 };
    let hout = b.calculate_hout_delta(0, 1);
    // Column 0 against a mismatching symbol: D[i][0] = i + 1, as in the column before.
    assert_eq!(hout, 0);
    assert_eq!(b.score, 64);
    assert_eq!(b.p & b.m, 0);
    let cells = b.get_cell_values();
    assert_eq!(cells[63], 1);
    assert_eq!(cells[0], 64);
}

#[test]
fn advance_with_negative_hin_keeps_disjoint() {
    let mut b = Block { p: 0x0f0f, m: 0xf0f0, score: 10 };
    let hout = b.calculate_hout_delta(0x1234_5678_9abc_def0, -1);
    assert!((-1..=1).contains(&hout));
    assert_eq!(b.p & b.m, 0);
}

#[test]
fn cell_values_from_top_bits() {
    let b = Block { p: HIGH_BIT_MASK, m: HIGH_BIT_MASK >> 1, score: 5 };
    let cells = b.get_cell_values();
    assert_eq!(cells.len(), WORD_SIZE as usize);
    assert_eq!(cells[0], 5);
    assert_eq!(cells[1], 4);
    assert_eq!(cells[2], 5);
    assert_eq!(cells[63], 5);
}
