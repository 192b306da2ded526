use war_game::cards::{deck, Card, Suite, Value};
use war_game::game::{resolve, Game};
use war_game::streak::{count_rounds, Round, Streak};

fn total(g: &Game) -> usize {
    let (a, b) = g.player().num_cards();
    let (c, d) = g.com().num_cards();
    a + b + c + d + g.hostages().len()
}

#[test]
fn resolve_tags_follow_ranks() {
    let seven = Card::new(Value::Seven, Suite::Clubs);
    let other_seven = Card::new(Value::Seven, Suite::Hearts);
    let ace = Card::new(Value::Ace, Suite::Spades);
    let two = Card::new(Value::Two, Suite::Diamonds);
    assert_eq!(resolve(&seven, &other_seven), Round::War);
    assert_eq!(resolve(&ace, &seven), Round::Victory);
    assert_eq!(resolve(&two, &ace), Round::Loss);
    assert_eq!(resolve(&ace, &ace), Round::War);
}

#[test]
fn new_game_deals_half_the_deck_to_each() {
    let g = Game::new();
    assert_eq!(g.player().num_cards(), (26, 0));
    assert_eq!(g.com().num_cards(), (26, 0));
    assert!(g.hostages().is_empty());
}

fn run_game(hostages: usize) -> (bool, Vec<Round>) {
    let mut g = Game::new();
    let mut rounds = vec![];
    for _ in 0..1_000_000 {
        let before = g.hostages().len();
        let len = rounds.len();
        let result = g.play_round(hostages, &mut rounds);
        assert_eq!(total(&g), 52);
        if let Some(won) = result {
            assert_eq!(rounds.len(), len);
            return (won, rounds);
        }
        assert_eq!(rounds.len(), len + 1);
        match rounds[len] {
            Round::War => assert_eq!(g.hostages().len(), before + 2 + 2 * hostages),
            _ => assert!(g.hostages().is_empty()),
        }
    }
    panic!("game did not end");
}

#[test]
fn full_game_keeps_every_card_and_ends() {
    let (_, rounds) = run_game(2);
    assert!(!rounds.is_empty());
    let v = count_rounds(&rounds, Round::Victory);
    let l = count_rounds(&rounds, Round::Loss);
    let w = count_rounds(&rounds, Round::War);
    assert_eq!(v + l + w, rounds.len());
    let streaks = Streak::from_rounds(&rounds);
    assert_eq!(streaks.iter().map(|s| s.length()).sum::<usize>(), rounds.len());
}

#[test]
fn games_without_hostages_also_end() {
    let (_, rounds) = run_game(0);
    assert!(!rounds.is_empty());
}

#[test]
fn loser_has_no_card_left() {
    let mut g = Game::new();
    let mut rounds = vec![];
    let mut result = None;
    for _ in 0..1_000_000 {
        result = g.play_round(2, &mut rounds);
        if result.is_some() {
            break;
        }
    }
    let won = result.expect("game ended");
    let (a, b) = g.player().num_cards();
    let (c, d) = g.com().num_cards();
    if won {
        assert_eq!(c + d, 0);
    } else {
        assert_eq!(a + b, 0);
    }
}

#[test]
fn deal_splits_the_deck_in_halves() {
    let g = Game::deal(deck());
    assert_eq!(g.player().num_cards(), (26, 0));
    assert_eq!(g.com().num_cards(), (26, 0));
    assert!(g.hostages().is_empty());
}

#[test]
fn unshuffled_deck_gives_only_wars() {
    let mut g = Game::deal(deck());
    let mut rounds = vec![];
    for i in 0..26 {
        assert_eq!(g.play_round(0, &mut rounds), None);
        assert_eq!(rounds.len(), i + 1);
        assert_eq!(rounds[i], Round::War);
        assert_eq!(g.hostages().len(), 2 * (i + 1));
    }
    assert_eq!(
        g.hostages()[0..2],
        [
            Card::new(Value::King, Suite::Spades),
            Card::new(Value::King, Suite::Diamonds)
        ]
    );
    assert_eq!(g.play_round(0, &mut rounds), Some(false));
    assert_eq!(rounds.len(), 26);
    assert_eq!(g.player().num_cards(), (0, 0));
}

#[test]
fn higher_card_wins_the_pool() {
    let mut cards = deck();
    cards.swap(0, 25);
    let mut g = Game::deal(cards);
    let mut rounds = vec![];
    // Ace of clubs against king of diamonds.
    assert_eq!(g.play_round(0, &mut rounds), None);
    assert_eq!(rounds, vec![Round::Victory]);
    assert_eq!(g.player().num_cards(), (25, 2));
    assert_eq!(g.com().num_cards(), (25, 0));
    // Queen of spades against queen of diamonds: a war with one hostage pair.
    assert_eq!(g.play_round(1, &mut rounds), None);
    assert_eq!(rounds[1], Round::War);
    assert_eq!(g.hostages().len(), 4);
    // Ten of spades against ten of diamonds.
    assert_eq!(g.play_round(0, &mut rounds), None);
    assert_eq!(rounds[2], Round::War);
    assert_eq!(g.hostages().len(), 6);
}

#[test]
fn lower_card_loses_the_pool() {
    let mut cards = deck();
    cards.swap(1, 25);
    let mut g = Game::deal(cards);
    let mut rounds = vec![];
    // Two of clubs against king of diamonds.
    assert_eq!(g.play_round(0, &mut rounds), None);
    assert_eq!(rounds, vec![Round::Loss]);
    assert_eq!(g.player().num_cards(), (25, 0));
    assert_eq!(g.com().num_cards(), (25, 2));
}
