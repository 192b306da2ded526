use crate::cards::Card;
use vstd::multiset::Multiset;
use vstd::prelude::*;

verus! {

/// Relies on rand::random: an arbitrary usize from the thread-local generator.
#[verifier::external_body]
fn random_usize() -> (r: usize) {
    rand::random::<usize>()
}

/// Removing the element at `i` by moving the last element into its place takes
/// exactly that element out of the multiset.
proof fn lemma_swap_remove_multiset<T>(s: Seq<T>, i: int)
    requires
        0 <= i < s.len(),
    ensures
        s.to_multiset() =~= s.update(i, s.last()).drop_last().to_multiset().insert(s[i]),
{
    broadcast use vstd::seq_lib::group_to_multiset_ensures, vstd::multiset::group_multiset_axioms;

    let u = s.update(i, s.last());
    assert(u.drop_last() =~= u.remove(u.len() - 1));
    vstd::seq_lib::to_multiset_update(s, i, s.last());
    vstd::seq_lib::to_multiset_remove(u, u.len() - 1);
    assert(u[u.len() - 1] == s.last());
}

/// The order that `shuffle_with` gives: each step takes the element at index
/// `draws[0] % s.len()`, moves the last element into its place, and goes on with
/// the rest of `draws`.
pub open spec fn shuffled_by<T>(s: Seq<T>, draws: Seq<usize>) -> Seq<T>
    decreases s.len(),
{
    if s.len() == 0 {
        Seq::empty()
    } else {
        let i = draws.first() as int % s.len() as int;
        seq![s[i]] + shuffled_by(s.update(i, s.last()).drop_last(), draws.drop_first())
    }
}

/// Whatever the draws, `shuffled_by` rearranges `s` without adding or losing an
/// element.
pub proof fn lemma_shuffled_by_permutes<T>(s: Seq<T>, draws: Seq<usize>)
    ensures
        shuffled_by(s, draws).len() == s.len(),
        shuffled_by(s, draws).to_multiset() == s.to_multiset(),
    decreases s.len(),
{
    broadcast use vstd::seq_lib::group_to_multiset_ensures, vstd::multiset::group_multiset_axioms;

    if s.len() > 0 {
        let i = draws.first() as int % s.len() as int;
        let rest = s.update(i, s.last()).drop_last();
        lemma_shuffled_by_permutes(rest, draws.drop_first());
        lemma_swap_remove_multiset(s, i);
        let tail = shuffled_by(rest, draws.drop_first());
        vstd::seq_lib::lemma_multiset_commutative(seq![s[i]], tail);
        assert(seq![s[i]] =~= Seq::<T>::empty().push(s[i]));
        assert(Seq::<T>::empty().to_multiset() =~= Multiset::empty());
        assert(shuffled_by(s, draws).to_multiset() =~= s.to_multiset());
    }
}

/// Reorders `vec` as `shuffled_by` says, using one entry of `draws` per element.
pub fn shuffle_with<T>(vec: &mut Vec<T>, draws: &[usize])
    requires
        draws@.len() >= old(vec)@.len(),
    ensures
        final(vec)@ == shuffled_by(old(vec)@, draws@),
{
    let ghost input = vec@;
    let mut new_vec: Vec<T> = Vec::new();
    let mut k: usize = 0;
    assert(draws@.subrange(0, draws@.len() as int) =~= draws@);
    assert(new_vec@ + shuffled_by(vec@, draws@.subrange(0, draws@.len() as int)) =~= shuffled_by(
        input,
        draws@,
    ));
    while vec.len() > 0
        invariant
            k == new_vec@.len(),
            k + vec@.len() <= draws@.len(),
            new_vec@ + shuffled_by(vec@, draws@.subrange(k as int, draws@.len() as int))
                == shuffled_by(input, draws@),
        decreases vec@.len(),
    {
        let len = vec.len();
        let idx = draws[k] % len;
        let ghost rest_draws = draws@.subrange(k as int, draws@.len() as int);
        let ghost taken_before = new_vec@;
        let ghost rest_before = vec@;
        let item = vec.swap_remove(idx);
        new_vec.push(item);
        k = k + 1;
        proof {
            assert(rest_draws.first() == draws@[k - 1]);
            assert(rest_draws.drop_first() =~= draws@.subrange(k as int, draws@.len() as int));
            assert(vec@ == rest_before.update(idx as int, rest_before.last()).drop_last());
            assert(shuffled_by(rest_before, rest_draws) == seq![item] + shuffled_by(
                vec@,
                rest_draws.drop_first(),
            ));
            assert(new_vec@ =~= taken_before + seq![item]);
            assert(new_vec@ + shuffled_by(vec@, rest_draws.drop_first()) =~= taken_before + (seq![
                item,
            ] + shuffled_by(vec@, rest_draws.drop_first())));
        }
    }
    assert(shuffled_by(vec@, draws@.subrange(k as int, draws@.len() as int)) =~= Seq::<T>::empty());
    assert(new_vec@ =~= shuffled_by(input, draws@));
    *vec = new_vec;
}

/// Puts the elements of `vec` in random order: draws one random number per element
/// and reorders by `shuffle_with`.
pub fn shuffle<T>(vec: &mut Vec<T>)
    ensures
        exists|draws: Seq<usize>|
            draws.len() == old(vec)@.len() && final(vec)@ == #[trigger] shuffled_by(
                old(vec)@,
                draws,
            ),
        final(vec)@.len() == old(vec)@.len(),
        final(vec)@.to_multiset() == old(vec)@.to_multiset(),
{
    let n = vec.len();
    let mut draws: Vec<usize> = Vec::new();
    let mut k: usize = 0;
    while k < n
        invariant
            k <= n,
            draws@.len() == k,
        decreases n - k,
    {
        draws.push(random_usize());
        k = k + 1;
    }
    shuffle_with(vec, draws.as_slice());
    proof {
        lemma_shuffled_by_permutes(old(vec)@, draws@);
    }
}

/// One side of the game: a draw pile played from its end, and a pile of cards won.
pub struct Player {
    deck: Vec<Card>,
    spoils: Vec<Card>,
}

impl Player {
    /// The draw pile; its last card is played next.
    pub closed spec fn draw_pile(&self) -> Seq<Card> {
        self.deck@
    }

    /// The cards won and not yet recycled into the draw pile.
    pub closed spec fn spoils_pile(&self) -> Seq<Card> {
        self.spoils@
    }

    /// Every card the player owns.
    pub open spec fn card_count(&self) -> nat {
        self.draw_pile().len() + self.spoils_pile().len()
    }

    /// Every card the player owns, as a multiset.
    pub open spec fn cards(&self) -> Multiset<Card> {
        self.draw_pile().to_multiset().add(self.spoils_pile().to_multiset())
    }

    /// What the spoils pile holds once a card has been played: unchanged, unless the
    /// draw pile was empty and the spoils were recycled.
    pub open spec fn spoils_after_play(&self) -> Seq<Card> {
        if self.draw_pile().len() > 0 {
            self.spoils_pile()
        } else {
            Seq::empty()
        }
    }

    pub fn new(deck: Vec<Card>) -> (r: Self)
        ensures
            r.draw_pile() == deck@,
            r.spoils_pile() == Seq::<Card>::empty(),
    {
        Self { deck, spoils: Vec::new() }
    }

    /// Sizes of the draw pile and of the spoils pile.
    pub fn num_cards(&self) -> (r: (usize, usize))
        ensures
            r.0 == self.draw_pile().len(),
            r.1 == self.spoils_pile().len(),
    {
        (self.deck.len(), self.spoils.len())
    }

    /// Plays the last card of the draw pile, recycling the spoils first where the
    /// draw pile is empty. Gives `None` only when the player owns no card.
    pub fn play_card(&mut self) -> (r: Option<Card>)
        ensures
            old(self).draw_pile().len() > 0 ==> {
                &&& r == Some(old(self).draw_pile().last())
                &&& final(self).draw_pile() == old(self).draw_pile().drop_last()
                &&& final(self).spoils_pile() == old(self).spoils_pile()
            },
            old(self).draw_pile().len() == 0 && old(self).spoils_pile().len() > 0 ==> {
                &&& r is Some
                &&& final(self).spoils_pile() == Seq::<Card>::empty()
                &&& final(self).draw_pile().push(r->0).to_multiset()
                    == old(self).spoils_pile().to_multiset()
            },
            old(self).card_count() == 0 ==> {
                &&& r is None
                &&& final(self).draw_pile() == old(self).draw_pile()
                &&& final(self).spoils_pile() == old(self).spoils_pile()
            },
            r is Some ==> final(self).card_count() + 1 == old(self).card_count(),
            r is Some ==> old(self).cards() == final(self).cards().insert(r->0),
    {
        broadcast use vstd::seq_lib::group_to_multiset_ensures, vstd::multiset::group_multiset_axioms;

        match self.deck.pop() {
            None => {
                self.recycle_spoils();
                let ghost d = self.deck@;
                let r = self.deck.pop();
                proof {
                    if r is Some {
                        assert(self.deck@.push(r->0) =~= d);
                        assert(d.subrange(0, d.len() as int) =~= d);
                        d.to_multiset_ensures();
                        old(self).spoils_pile().to_multiset_ensures();
                        assert(old(self).draw_pile().to_multiset() =~= Multiset::empty());
                        assert(self.spoils@.to_multiset() =~= Multiset::empty());
                        assert(old(self).cards() =~= self.cards().insert(r->0));
                    }
                }
                r
            },
            some => {
                proof {
                    let d = old(self).draw_pile();
                    assert(d =~= self.deck@.push(some->0));
                    assert(old(self).cards() =~= self.cards().insert(some->0));
                }
                some
            },
        }
    }

    /// Moves the spoils, shuffled, onto the end of the draw pile. Returns whether
    /// there were any.
    pub fn recycle_spoils(&mut self) -> (r: bool)
        ensures
            r == (old(self).spoils_pile().len() > 0),
            !r ==> final(self).draw_pile() == old(self).draw_pile() && final(self).spoils_pile()
                == old(self).spoils_pile(),
            r ==> {
                let n = old(self).draw_pile().len() as int;
                let d = final(self).draw_pile();
                &&& final(self).spoils_pile() == Seq::<Card>::empty()
                &&& d.len() == n + old(self).spoils_pile().len()
                &&& d.subrange(0, n) == old(self).draw_pile()
                &&& d.subrange(n, d.len() as int).to_multiset()
                    == old(self).spoils_pile().to_multiset()
            },
    {
        if self.spoils.len() == 0 {
            return false;
        }
        shuffle(&mut self.spoils);
        let ghost shuffled = self.spoils@;
        self.deck.append(&mut self.spoils);
        proof {
            let n = old(self).draw_pile().len() as int;
            let d = self.deck@;
            assert(d.subrange(0, n) =~= old(self).draw_pile());
            assert(d.subrange(n, d.len() as int) =~= shuffled);
        }
        true
    }

    /// Adds `cards` to the spoils pile, leaving `cards` empty.
    pub fn take_spoils(&mut self, cards: &mut Vec<Card>)
        ensures
            final(self).spoils_pile() == old(self).spoils_pile() + old(cards)@,
            final(self).draw_pile() == old(self).draw_pile(),
            final(cards)@ == Seq::<Card>::empty(),
            final(self).cards() == old(self).cards().add(old(cards)@.to_multiset()),
    {
        broadcast use vstd::multiset::group_multiset_axioms;

        self.spoils.append(cards);
        proof {
            vstd::seq_lib::lemma_multiset_commutative(old(self).spoils_pile(), old(cards)@);
            assert(self.cards() =~= old(self).cards().add(old(cards)@.to_multiset()));
        }
    }
}

} // verus!
