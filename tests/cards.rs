use std::cmp::Ordering;
use war_game::cards::{deck, Card, Suite, Value};

const VALUES: [Value; 13] = [
    Value::Two,
    Value::Three,
    Value::Four,
    Value::Five,
    Value::Six,
    Value::Seven,
    Value::Eight,
    Value::Nine,
    Value::Ten,
    Value::Jack,
    Value::Queen,
    Value::King,
    Value::Ace,
];
const SUITES: [Suite; 4] = [Suite::Clubs, Suite::Spades, Suite::Hearts, Suite::Diamonds];

#[test]
fn deck_has_52_distinct_cards() {
    let d = deck();
    assert_eq!(d.len(), 52);
    for i in 0..d.len() {
        for j in (i + 1)..d.len() {
            assert_ne!(d[i], d[j]);
        }
    }
}

#[test]
fn deck_has_every_rank_four_times_and_every_suit_thirteen_times() {
    let d = deck();
    for v in VALUES {
        assert_eq!(d.iter().filter(|c| c.value == v).count(), 4);
    }
    for s in SUITES {
        assert_eq!(d.iter().filter(|c| c.suite == s).count(), 13);
    }
    for v in VALUES {
        for s in SUITES {
            assert!(d.contains(&Card::new(v, s)));
        }
    }
}

#[test]
fn deck_order_is_fixed() {
    let d = deck();
    assert_eq!(d[0], Card::new(Value::Ace, Suite::Clubs));
    assert_eq!(d[1], Card::new(Value::Two, Suite::Clubs));
    assert_eq!(d[12], Card::new(Value::King, Suite::Clubs));
    assert_eq!(d[13], Card::new(Value::Ace, Suite::Spades));
    assert_eq!(d[51], Card::new(Value::King, Suite::Diamonds));
    assert_eq!(deck(), d);
}

#[test]
fn ranks_run_from_two_to_ace() {
    assert_eq!(Value::Two.rank(), 2);
    assert_eq!(Value::Ten.rank(), 10);
    assert_eq!(Value::Jack.rank(), 11);
    assert_eq!(Value::King.rank(), 13);
    assert_eq!(Value::Ace.rank(), 14);
    assert_eq!(Card::new(Value::Queen, Suite::Hearts).rank(), 12);
}

#[test]
fn cards_compare_by_rank_only() {
    let ace = Card::new(Value::Ace, Suite::Clubs);
    let two = Card::new(Value::Two, Suite::Spades);
    let king = Card::new(Value::King, Suite::Hearts);
    let seven_c = Card::new(Value::Seven, Suite::Clubs);
    let seven_d = Card::new(Value::Seven, Suite::Diamonds);
    assert_eq!(ace.compare(&two), Ordering::Greater);
    assert_eq!(king.compare(&ace), Ordering::Less);
    assert_eq!(seven_c.compare(&seven_d), Ordering::Equal);
    assert_eq!(seven_c.partial_cmp(&seven_d), Some(Ordering::Equal));
    assert!(two < king);
    assert!(ace > king);
    assert_ne!(seven_c, seven_d);
}
