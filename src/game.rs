use crate::cards::{deck, full_deck, Card};
use crate::player::{shuffle, shuffled_by, Player};
use crate::streak::Round;
use vstd::multiset::Multiset;
use vstd::prelude::*;

verus! {

/// Number of cards in play during a game.
pub const DECK_SIZE: usize = 52;

/// The outcome for the active player when card `a` meets card `b`.
pub open spec fn outcome(a: Card, b: Card) -> Round {
    if a.spec_rank() == b.spec_rank() {
        Round::War
    } else if a.spec_rank() > b.spec_rank() {
        Round::Victory
    } else {
        Round::Loss
    }
}

/// Compares the active player's card `a` with the opponent's card `b`.
pub fn resolve(a: &Card, b: &Card) -> (r: Round)
    ensures
        r == outcome(*a, *b),
        r == Round::War <==> a.spec_rank() == b.spec_rank(),
        r == Round::Victory <==> a.spec_rank() > b.spec_rank(),
        r == Round::Loss <==> a.spec_rank() < b.spec_rank(),
{
    match a.compare(b) {
        std::cmp::Ordering::Equal => Round::War,
        std::cmp::Ordering::Greater => Round::Victory,
        std::cmp::Ordering::Less => Round::Loss,
    }
}

/// A two-player game of War: the active player, the opponent, and the cards at
/// stake in an unresolved war.
pub struct Game {
    player: Player,
    com: Player,
    hostages: Vec<Card>,
}

impl Game {
    pub closed spec fn active(&self) -> Player {
        self.player
    }

    pub closed spec fn opponent(&self) -> Player {
        self.com
    }

    /// Cards at stake, owned by neither side.
    pub closed spec fn hostage_pile(&self) -> Seq<Card> {
        self.hostages@
    }

    /// Cards held by both players and in the hostage pool.
    pub open spec fn total_cards(&self) -> nat {
        self.active().card_count() + self.opponent().card_count() + self.hostage_pile().len()
    }

    /// Every card in the game, wherever it lies.
    pub open spec fn all_cards(&self) -> Multiset<Card> {
        self.active().cards().add(self.opponent().cards()).add(self.hostage_pile().to_multiset())
    }

    /// The cards in the game are those of one deck: none is created, lost or held
    /// twice.
    pub open spec fn wf(&self) -> bool {
        &&& self.all_cards() == full_deck().to_multiset()
        &&& self.total_cards() == DECK_SIZE
    }

    /// Deals `cards`, which must be one full deck in some order: the first half to
    /// the active player's draw pile, the second half to the opponent's.
    pub fn deal(cards: Vec<Card>) -> (r: Self)
        requires
            cards@.to_multiset() == full_deck().to_multiset(),
        ensures
            r.wf(),
            r.active().draw_pile() == cards@.subrange(0, 26),
            r.opponent().draw_pile() == cards@.subrange(26, 52),
            r.active().spoils_pile().len() == 0,
            r.opponent().spoils_pile().len() == 0,
            r.hostage_pile().len() == 0,
    {
        broadcast use vstd::seq_lib::group_to_multiset_ensures, vstd::multiset::group_multiset_axioms;

        let mut cards = cards;
        let ghost all = cards@;
        proof {
            all.to_multiset_ensures();
            full_deck().to_multiset_ensures();
        }
        let other = cards.split_off(cards.len() / 2);
        assert(cards@ + other@ =~= all);
        let g = Game { player: Player::new(cards), com: Player::new(other), hostages: Vec::new() };
        proof {
            vstd::seq_lib::lemma_multiset_commutative(cards@, other@);
            assert(Seq::<Card>::empty().to_multiset() =~= Multiset::empty());
            assert(g.all_cards() =~= full_deck().to_multiset());
        }
        g
    }

    /// Shuffles a fresh deck and deals it.
    pub fn new() -> (r: Self)
        ensures
            r.wf(),
            exists|draws: Seq<usize>|
                {
                    let order = #[trigger] shuffled_by(full_deck(), draws);
                    &&& draws.len() == 52
                    &&& r.active().draw_pile() == order.subrange(0, 26)
                    &&& r.opponent().draw_pile() == order.subrange(26, 52)
                },
            r.active().spoils_pile().len() == 0,
            r.opponent().spoils_pile().len() == 0,
            r.hostage_pile().len() == 0,
    {
        let mut cards = deck();
        shuffle(&mut cards);
        Game::deal(cards)
    }

    pub fn player(&self) -> (r: &Player)
        ensures
            *r == self.active(),
    {
        &self.player
    }

    pub fn com(&self) -> (r: &Player)
        ensures
            *r == self.opponent(),
    {
        &self.com
    }

    pub fn hostages(&self) -> (r: &[Card])
        ensures
            r@ == self.hostage_pile(),
    {
        self.hostages.as_slice()
    }

    /// Plays one round. Each side plays a card; on equal ranks both go to the
    /// hostage pool with `num_war_hostages` further cards from each side, otherwise
    /// the winner of the comparison takes both cards and the whole pool. The
    /// outcome is appended to `rounds`. Returns `Some(won)` when a side could not
    /// supply a card, which ends the game: `Some(false)` when it was the active
    /// player. Cards already laid down then stay in the pool.
    pub fn play_round(&mut self, num_war_hostages: usize, rounds: &mut Vec<Round>) -> (r: Option<
        bool,
    >)
        requires
            old(self).wf(),
        ensures
            final(self).wf(),
            old(self).active().card_count() == 0 ==> r == Some(false),
            old(self).active().card_count() > 0 && old(self).opponent().card_count() == 0 ==> r
                == Some(true),
            old(self).active().card_count() > num_war_hostages && old(self).opponent().card_count()
                > num_war_hostages ==> r is None,
            r == Some(false) ==> old(self).active().card_count() <= num_war_hostages,
            r == Some(true) ==> old(self).opponent().card_count() <= num_war_hostages,
            r == Some(false) ==> final(self).active().card_count() == 0,
            r == Some(true) ==> final(self).opponent().card_count() == 0,
            r is Some ==> final(rounds)@ == old(rounds)@,
            r is None ==> {
                let t = final(rounds)@.last();
                let h = old(self).hostage_pile().len();
                let a = old(self).active().card_count();
                let b = old(self).opponent().card_count();
                &&& final(rounds)@ == old(rounds)@.push(t)
                &&& t == Round::Victory ==> {
                    &&& final(self).hostage_pile().len() == 0
                    &&& final(self).active().card_count() == a + 1 + h
                    &&& final(self).opponent().card_count() + 1 == b
                }
                &&& t == Round::Loss ==> {
                    &&& final(self).hostage_pile().len() == 0
                    &&& final(self).active().card_count() + 1 == a
                    &&& final(self).opponent().card_count() == b + 1 + h
                }
                &&& t == Round::War ==> {
                    &&& final(self).hostage_pile().len() == h + 2 + 2 * num_war_hostages
                    &&& final(self).active().card_count() + 1 + num_war_hostages == a
                    &&& final(self).opponent().card_count() + 1 + num_war_hostages == b
                }
                &&& exists|x: Card, y: Card|
                    {
                        let pool = old(self).hostage_pile();
                        let pa = old(self).active();
                        let pb = old(self).opponent();
                        &&& t == #[trigger] outcome(x, y)
                        &&& pa.cards().count(x) > 0
                        &&& pb.cards().count(y) > 0
                        &&& pa.draw_pile().len() > 0 ==> x == pa.draw_pile().last()
                        &&& pb.draw_pile().len() > 0 ==> y == pb.draw_pile().last()
                        &&& t == Round::War ==> final(self).hostage_pile().subrange(0, h as int + 2)
                            == pool + seq![x, y]
                        &&& t == Round::Victory ==> {
                            &&& final(self).active().spoils_pile() == pa.spoils_after_play()
                                + seq![x, y] + pool
                            &&& final(self).opponent().spoils_pile() == pb.spoils_after_play()
                            &&& final(self).active().cards() == pa.cards().insert(y).add(
                                pool.to_multiset(),
                            )
                            &&& final(self).opponent().cards().insert(y) == pb.cards()
                        }
                        &&& t == Round::Loss ==> {
                            &&& final(self).opponent().spoils_pile() == pb.spoils_after_play()
                                + seq![x, y] + pool
                            &&& final(self).active().spoils_pile() == pa.spoils_after_play()
                            &&& final(self).opponent().cards() == pb.cards().insert(x).add(
                                pool.to_multiset(),
                            )
                            &&& final(self).active().cards().insert(x) == pa.cards()
                        }
                        &&& t != Round::War ==> {
                            &&& pa.draw_pile().len() > 0 ==> final(self).active().draw_pile()
                                == pa.draw_pile().drop_last()
                            &&& pb.draw_pile().len() > 0 ==> final(self).opponent().draw_pile()
                                == pb.draw_pile().drop_last()
                        }
                    }
            },
    {
        let ghost a0 = self.player.card_count();
        let ghost b0 = self.com.card_count();
        let ghost h0: int = self.hostages@.len() as int;
        broadcast use vstd::seq_lib::group_to_multiset_ensures, vstd::multiset::group_multiset_axioms;

        let player_card = match self.player.play_card() {
            Some(c) => c,
            None => {
                return Some(false);
            },
        };
        let com_card = match self.com.play_card() {
            Some(c) => c,
            None => {
                self.hostages.push(player_card);
                assert(self.all_cards() =~= old(self).all_cards());
                return Some(true);
            },
        };
        let result = resolve(&player_card, &com_card);
        match result {
            Round::War => {
                self.hostages.push(player_card);
                self.hostages.push(com_card);
                assert(self.all_cards() =~= old(self).all_cards());
                assert(self.hostages@.subrange(0, h0 + 2) =~= old(self).hostage_pile() + seq![
                    player_card,
                    com_card,
                ]);
                let mut j: usize = 0;
                while j < num_war_hostages
                    invariant
                        j <= num_war_hostages,
                        a0 == old(self).active().card_count(),
                        b0 == old(self).opponent().card_count(),
                        h0 == old(self).hostage_pile().len(),
                        self.wf(),
                        rounds@ == old(rounds)@,
                        self.hostages@.len() == h0 + 2 + 2 * j,
                        self.player.card_count() + 1 + j == a0,
                        self.com.card_count() + 1 + j == b0,
                        self.hostages@.subrange(0, h0 + 2) == old(self).hostage_pile() + seq![
                            player_card,
                            com_card,
                        ],
                    decreases num_war_hostages - j,
                {
                    let ghost before = self.all_cards();
                    let ghost pool = self.hostages@;
                    match self.player.play_card() {
                        Some(c) => {
                            self.hostages.push(c);
                            proof {
                                vstd::seq_lib::to_multiset_build(pool, c);
                                assert(self.hostages@.subrange(0, h0 + 2) =~= pool.subrange(
                                    0,
                                    h0 + 2,
                                ));
                            }
                            assert(self.all_cards() =~= before);
                        },
                        None => {
                            return Some(false);
                        },
                    }
                    let ghost before = self.all_cards();
                    let ghost pool = self.hostages@;
                    match self.com.play_card() {
                        Some(c) => {
                            self.hostages.push(c);
                            proof {
                                vstd::seq_lib::to_multiset_build(pool, c);
                                assert(self.hostages@.subrange(0, h0 + 2) =~= pool.subrange(
                                    0,
                                    h0 + 2,
                                ));
                            }
                            assert(self.all_cards() =~= before);
                        },
                        None => {
                            return Some(true);
                        },
                    }
                    j = j + 1;
                }
                rounds.push(Round::War);
            },
            Round::Loss => {
                let mut pair = vec![player_card, com_card];
                self.com.take_spoils(&mut pair);
                self.com.take_spoils(&mut self.hostages);
                proof {
                    assert(seq![player_card, com_card] =~= seq![player_card].push(com_card));
                    assert(seq![player_card] =~= Seq::<Card>::empty().push(player_card));
                    assert(Seq::<Card>::empty().to_multiset() =~= Multiset::empty());
                    assert(self.hostages@.to_multiset() =~= Multiset::empty());
                    assert(self.all_cards() =~= old(self).all_cards());
                    assert(self.com.cards() =~= old(self).opponent().cards().insert(player_card).add(
                        old(self).hostage_pile().to_multiset(),
                    ));
                }
                rounds.push(Round::Loss);
            },
            Round::Victory => {
                let mut pair = vec![player_card, com_card];
                self.player.take_spoils(&mut pair);
                self.player.take_spoils(&mut self.hostages);
                proof {
                    assert(seq![player_card, com_card] =~= seq![player_card].push(com_card));
                    assert(seq![player_card] =~= Seq::<Card>::empty().push(player_card));
                    assert(Seq::<Card>::empty().to_multiset() =~= Multiset::empty());
                    assert(self.hostages@.to_multiset() =~= Multiset::empty());
                    assert(self.all_cards() =~= old(self).all_cards());
                    assert(self.player.cards() =~= old(self).active().cards().insert(com_card).add(
                        old(self).hostage_pile().to_multiset(),
                    ));
                }
                rounds.push(Round::Victory);
            },
        }
        assert(outcome(player_card, com_card) == rounds@.last());
        assert(old(self).active().cards().count(player_card) > 0);
        assert(old(self).opponent().cards().count(com_card) > 0);
        None
    }
}

} // verus!
