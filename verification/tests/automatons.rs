use ecagen::automaton::Automaton;
use ecagen::row::Row;
use ecagen::rule::Rule;

#[test]
fn automaton_keeps_history() {
    let mut a = Automaton::new(110, Row::from_single(true));
    a.step();
    a.step();
    assert_eq!(a.rows.len(), 3);
    assert_eq!(a.rows[0].get_state().1.len(), 7);
    assert_eq!(a.rows[1].get_state().1.len(), 9);
    assert_eq!(a.rows[2].get_state().1.len(), 11);
}

#[test]
fn automaton_steps_match_row_next() {
    let rule = Rule::new(30);
    let mut by_hand = Row::from_single(true);
    let mut a = Automaton::new(30, Row::from_single(true));
    for i in 1..=4usize {
        a.step();
        by_hand = by_hand.next(&rule);
        let (offset, w) = a.rows[i].get_state();
        let (offset2, w2) = by_hand.get_state();
        assert_eq!(offset, offset2);
        assert_eq!(w, w2);
    }
}
