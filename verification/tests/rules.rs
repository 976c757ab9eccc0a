use ecagen::rule::Rule;

#[test]
fn rule_110_all_neighborhoods() {
    // 110 is 0b01101110: bits 1, 2, 3, 5 and 6 are set.
    let r = Rule::new(110);
    assert_eq!(r.apply(&[false, false, false]), false);
    assert_eq!(r.apply(&[false, false, true]), true);
    assert_eq!(r.apply(&[false, true, false]), true);
    assert_eq!(r.apply(&[false, true, true]), true);
    assert_eq!(r.apply(&[true, false, false]), false);
    assert_eq!(r.apply(&[true, false, true]), true);
    assert_eq!(r.apply(&[true, true, false]), true);
    assert_eq!(r.apply(&[true, true, true]), false);
}

#[test]
fn rule_totality_all_codes() {
    // Every code and every neighborhood: the result is the code's bit at the
    // neighborhood's index, computed here by division instead of shifting.
    for code in 0..=255u8 {
        let r = Rule::new(code);
        for idx in 0..8u32 {
            let left = idx & 4 != 0;
            let center = idx & 2 != 0;
            let right = idx & 1 != 0;
            let expected = (code as u32 / 2u32.pow(idx)) % 2 == 1;
            assert_eq!(r.apply(&[left, center, right]), expected);
        }
    }
}

#[test]
fn rule_code_is_kept() {
    let r = Rule::new(90);
    assert_eq!(r.wolfram_code, 90);
}
