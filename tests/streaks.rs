use std::cmp::Ordering;
use war_game::streak::{count_rounds, longest_streak, Round, Streak};

fn pairs(streaks: &[Streak]) -> Vec<(Round, usize)> {
    streaks.iter().map(|s| (s.typ(), s.length())).collect()
}

#[test]
fn streaks_of_mixed_rounds() {
    let rounds = [
        Round::Victory,
        Round::Victory,
        Round::Loss,
        Round::War,
        Round::War,
        Round::War,
    ];
    let streaks = Streak::from_rounds(&rounds);
    assert_eq!(
        pairs(&streaks),
        vec![(Round::Victory, 2), (Round::Loss, 1), (Round::War, 3)]
    );
}

#[test]
fn streaks_of_no_rounds() {
    let streaks = Streak::from_rounds(&[]);
    assert!(streaks.is_empty());
}

#[test]
fn streaks_keep_order_and_do_not_group() {
    let rounds = [Round::Loss, Round::Victory, Round::Loss, Round::Loss];
    let streaks = Streak::from_rounds(&rounds);
    assert_eq!(
        pairs(&streaks),
        vec![(Round::Loss, 1), (Round::Victory, 1), (Round::Loss, 2)]
    );
}

#[test]
fn longest_streak_by_kind() {
    let rounds = [
        Round::War,
        Round::Loss,
        Round::Loss,
        Round::Victory,
        Round::Loss,
        Round::Loss,
        Round::Loss,
        Round::War,
    ];
    let streaks = Streak::from_rounds(&rounds);
    assert_eq!(longest_streak(&streaks, Round::Loss), 3);
    assert_eq!(longest_streak(&streaks, Round::War), 1);
    assert_eq!(longest_streak(&streaks, Round::Victory), 1);
    let only_losses = Streak::from_rounds(&[Round::Loss]);
    assert_eq!(longest_streak(&only_losses, Round::War), 0);
    assert_eq!(longest_streak(&[], Round::Victory), 0);
}

#[test]
fn round_counts_add_up() {
    let rounds = [
        Round::Victory,
        Round::War,
        Round::Loss,
        Round::Victory,
        Round::Victory,
    ];
    let v = count_rounds(&rounds, Round::Victory);
    let l = count_rounds(&rounds, Round::Loss);
    let w = count_rounds(&rounds, Round::War);
    assert_eq!((v, l, w), (3, 1, 1));
    assert_eq!(v + l + w, rounds.len());
    assert_eq!(count_rounds(&[], Round::War), 0);
}

#[test]
fn streaks_compare_within_a_kind_only() {
    let a = Streak::from_rounds(&[Round::War, Round::War, Round::Loss]);
    let b = Streak::from_rounds(&[Round::War, Round::Loss, Round::Loss]);
    assert_eq!(a[0].partial_cmp(&b[0]), Some(Ordering::Greater));
    assert_eq!(a[1].partial_cmp(&b[1]), Some(Ordering::Less));
    assert_eq!(a[0].partial_cmp(&b[1]), None);
    assert_eq!(a[0].partial_cmp(&a[0]), Some(Ordering::Equal));
}

#[test]
fn streak_conversions() {
    let s = Streak::from(&Round::Victory);
    assert_eq!((s.typ(), s.length()), (Round::Victory, 1));
    assert_eq!(Round::from(&s), Round::Victory);
}
