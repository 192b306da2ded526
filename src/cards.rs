use vstd::prelude::*;

verus! {

/// The rank of a card. Variants are listed from weakest to strongest.
#[derive(Clone, Copy, Debug, PartialEq, Eq, PartialOrd, Ord, Structural)]
pub enum Value {
    Two,
    Three,
    Four,
    Five,
    Six,
    Seven,
    Eight,
    Nine,
    Ten,
    Jack,
    Queen,
    King,
    Ace,
}

/// The suit of a card; suits carry no weight in comparisons.
#[derive(Clone, Copy, Debug, PartialEq, Eq, Structural)]
pub enum Suite {
    Clubs,
    Spades,
    Hearts,
    Diamonds,
}

impl Value {
    /// Strength of the rank: two is 2, jack 11, queen 12, king 13, ace 14.
    pub open spec fn spec_rank(self) -> int {
        match self {
            Value::Two => 2,
            Value::Three => 3,
            Value::Four => 4,
            Value::Five => 5,
            Value::Six => 6,
            Value::Seven => 7,
            Value::Eight => 8,
            Value::Nine => 9,
            Value::Ten => 10,
            Value::Jack => 11,
            Value::Queen => 12,
            Value::King => 13,
            Value::Ace => 14,
        }
    }

    pub fn rank(&self) -> (r: u8)
        ensures
            r as int == self.spec_rank(),
    {
        match self {
            Value::Two => 2,
            Value::Three => 3,
            Value::Four => 4,
            Value::Five => 5,
            Value::Six => 6,
            Value::Seven => 7,
            Value::Eight => 8,
            Value::Nine => 9,
            Value::Ten => 10,
            Value::Jack => 11,
            Value::Queen => 12,
            Value::King => 13,
            Value::Ace => 14,
        }
    }
}

/// Position of a rank within one suit of a fresh deck: the ace leads, then two up to king.
pub open spec fn value_at(k: int) -> Value {
    if k == 0 {
        Value::Ace
    } else if k == 1 {
        Value::Two
    } else if k == 2 {
        Value::Three
    } else if k == 3 {
        Value::Four
    } else if k == 4 {
        Value::Five
    } else if k == 5 {
        Value::Six
    } else if k == 6 {
        Value::Seven
    } else if k == 7 {
        Value::Eight
    } else if k == 8 {
        Value::Nine
    } else if k == 9 {
        Value::Ten
    } else if k == 10 {
        Value::Jack
    } else if k == 11 {
        Value::Queen
    } else {
        Value::King
    }
}

/// Position of a suit in a fresh deck.
pub open spec fn suite_at(k: int) -> Suite {
    if k == 0 {
        Suite::Clubs
    } else if k == 1 {
        Suite::Spades
    } else if k == 2 {
        Suite::Hearts
    } else {
        Suite::Diamonds
    }
}

/// A playing card. Cards compare by rank alone.
#[derive(Clone, Copy, Debug, PartialEq, Eq, Structural)]
pub struct Card {
    pub value: Value,
    pub suite: Suite,
}

impl Card {
    pub fn new(value: Value, suite: Suite) -> (r: Self)
        ensures
            r.value == value,
            r.suite == suite,
    {
        Self { suite, value }
    }

    pub open spec fn spec_rank(self) -> int {
        self.value.spec_rank()
    }

    pub fn rank(&self) -> (r: u8)
        ensures
            r as int == self.spec_rank(),
    {
        self.value.rank()
    }

    /// Orders two cards by rank; the suits are ignored.
    pub fn compare(&self, other: &Card) -> (r: std::cmp::Ordering)
        ensures
            r == rank_order(*self, *other),
    {
        let a = self.rank();
        let b = other.rank();
        if a < b {
            std::cmp::Ordering::Less
        } else if a > b {
            std::cmp::Ordering::Greater
        } else {
            std::cmp::Ordering::Equal
        }
    }
}

/// How card `a` stands against card `b` by rank.
pub open spec fn rank_order(a: Card, b: Card) -> std::cmp::Ordering {
    if a.spec_rank() < b.spec_rank() {
        std::cmp::Ordering::Less
    } else if a.spec_rank() > b.spec_rank() {
        std::cmp::Ordering::Greater
    } else {
        std::cmp::Ordering::Equal
    }
}

impl PartialOrd for Card {
    fn partial_cmp(&self, other: &Card) -> (r: Option<std::cmp::Ordering>) {
        Some(self.compare(other))
    }
}

impl vstd::std_specs::cmp::PartialOrdSpecImpl for Card {
    open spec fn obeys_partial_cmp_spec() -> bool {
        true
    }

    open spec fn partial_cmp_spec(&self, other: &Card) -> Option<std::cmp::Ordering> {
        Some(rank_order(*self, *other))
    }
}

/// The card at position `i` of a fresh deck: suits in turn, each from ace to king.
pub open spec fn deck_card(i: int) -> Card {
    Card { value: value_at(i % 13), suite: suite_at(i / 13) }
}

/// A fresh, unshuffled deck.
pub open spec fn full_deck() -> Seq<Card> {
    Seq::new(52, |i: int| deck_card(i))
}

/// Where `v` stands within one suit of a fresh deck; inverse of `value_at`.
pub open spec fn value_index(v: Value) -> int {
    match v {
        Value::Ace => 0,
        Value::Two => 1,
        Value::Three => 2,
        Value::Four => 3,
        Value::Five => 4,
        Value::Six => 5,
        Value::Seven => 6,
        Value::Eight => 7,
        Value::Nine => 8,
        Value::Ten => 9,
        Value::Jack => 10,
        Value::Queen => 11,
        Value::King => 12,
    }
}

/// Where the suit `s` stands in a fresh deck; inverse of `suite_at`.
pub open spec fn suite_index(s: Suite) -> int {
    match s {
        Suite::Clubs => 0,
        Suite::Spades => 1,
        Suite::Hearts => 2,
        Suite::Diamonds => 3,
    }
}

/// How many of `cards` have value `v`.
pub open spec fn count_value(cards: Seq<Card>, v: Value) -> nat
    decreases cards.len(),
{
    if cards.len() == 0 {
        0
    } else {
        count_value(cards.drop_last(), v) + if cards.last().value == v {
            1nat
        } else {
            0nat
        }
    }
}

/// How many of `cards` have suit `s`.
pub open spec fn count_suite(cards: Seq<Card>, s: Suite) -> nat
    decreases cards.len(),
{
    if cards.len() == 0 {
        0
    } else {
        count_suite(cards.drop_last(), s) + if cards.last().suite == s {
            1nat
        } else {
            0nat
        }
    }
}

/// The first `n` cards of suit `s` in a fresh deck.
spec fn suit_block(s: Suite, n: int) -> Seq<Card> {
    Seq::new(n as nat, |j: int| Card { value: value_at(j), suite: s })
}

proof fn lemma_counts_concat(a: Seq<Card>, b: Seq<Card>, v: Value, s: Suite)
    ensures
        count_value(a + b, v) == count_value(a, v) + count_value(b, v),
        count_suite(a + b, s) == count_suite(a, s) + count_suite(b, s),
    decreases b.len(),
{
    if b.len() > 0 {
        assert((a + b).drop_last() =~= a + b.drop_last());
        lemma_counts_concat(a, b.drop_last(), v, s);
    } else {
        assert(a + b =~= a);
    }
}

proof fn lemma_block_counts(s: Suite, n: int, v: Value, t: Suite)
    requires
        0 <= n <= 13,
    ensures
        count_value(suit_block(s, n), v) == if value_index(v) < n {
            1nat
        } else {
            0nat
        },
        count_suite(suit_block(s, n), t) == if s == t {
            n as nat
        } else {
            0nat
        },
    decreases n,
{
    if n > 0 {
        assert(suit_block(s, n).drop_last() =~= suit_block(s, n - 1));
        lemma_block_counts(s, n - 1, v, t);
    }
}

/// A fresh deck holds 52 distinct cards, one of each value and suit: every value
/// four times and every suit thirteen times.
pub proof fn lemma_full_deck()
    ensures
        full_deck().len() == 52,
        full_deck().no_duplicates(),
        forall|v: Value, s: Suite| full_deck().contains(Card { value: v, suite: s }),
        forall|v: Value| #[trigger] count_value(full_deck(), v) == 4,
        forall|s: Suite| #[trigger] count_suite(full_deck(), s) == 13,
{
    let d = full_deck();
    assert forall|i: int, j: int| 0 <= i < d.len() && 0 <= j < d.len() && i != j implies d[i]
        != d[j] by {
        assert(value_index(value_at(i % 13)) == i % 13);
        assert(value_index(value_at(j % 13)) == j % 13);
        assert(suite_index(suite_at(i / 13)) == i / 13);
        assert(suite_index(suite_at(j / 13)) == j / 13);
    }
    assert forall|v: Value, s: Suite| d.contains(Card { value: v, suite: s }) by {
        let a = suite_index(s);
        let b = value_index(v);
        let i = 13 * a + b;
        assert(i % 13 == b && i / 13 == a) by (nonlinear_arith)
            requires
                0 <= b < 13,
                i == 13 * a + b,
        ;
        assert(d[i] == Card { value: v, suite: s });
    }
    let b0 = suit_block(Suite::Clubs, 13);
    let b1 = suit_block(Suite::Spades, 13);
    let b2 = suit_block(Suite::Hearts, 13);
    let b3 = suit_block(Suite::Diamonds, 13);
    assert(d =~= b0 + b1 + b2 + b3);
    assert forall|v: Value| #[trigger] count_value(d, v) == 4 by {
        lemma_counts_concat(b0, b1, v, Suite::Clubs);
        lemma_counts_concat(b0 + b1, b2, v, Suite::Clubs);
        lemma_counts_concat(b0 + b1 + b2, b3, v, Suite::Clubs);
        lemma_block_counts(Suite::Clubs, 13, v, Suite::Clubs);
        lemma_block_counts(Suite::Spades, 13, v, Suite::Clubs);
        lemma_block_counts(Suite::Hearts, 13, v, Suite::Clubs);
        lemma_block_counts(Suite::Diamonds, 13, v, Suite::Clubs);
    }
    assert forall|s: Suite| #[trigger] count_suite(d, s) == 13 by {
        lemma_counts_concat(b0, b1, Value::Ace, s);
        lemma_counts_concat(b0 + b1, b2, Value::Ace, s);
        lemma_counts_concat(b0 + b1 + b2, b3, Value::Ace, s);
        lemma_block_counts(Suite::Clubs, 13, Value::Ace, s);
        lemma_block_counts(Suite::Spades, 13, Value::Ace, s);
        lemma_block_counts(Suite::Hearts, 13, Value::Ace, s);
        lemma_block_counts(Suite::Diamonds, 13, Value::Ace, s);
    }
}

/// Builds the 52 cards of a standard deck, in a fixed order.
pub fn deck() -> (r: Vec<Card>)
    ensures
        r@ == full_deck(),
{
    let suites: [Suite; 4] = [Suite::Clubs, Suite::Spades, Suite::Hearts, Suite::Diamonds];
    let values: [Value; 13] = [
        Value::Ace,
        Value::Two,
        Value::Three,
        Value::Four,
        Value::Five,
        Value::Six,
        Value::Seven,
        Value::Eight,
        Value::Nine,
        Value::Ten,
        Value::Jack,
        Value::Queen,
        Value::King,
    ];
    let mut deck: Vec<Card> = Vec::new();
    let mut s: usize = 0;
    while s < 4
        invariant
            s <= 4,
            deck@.len() == 13 * s,
            forall|k: int| 0 <= k < 4 ==> suites@[k] == suite_at(k),
            forall|k: int| 0 <= k < 13 ==> values@[k] == value_at(k),
            forall|i: int| 0 <= i < deck@.len() ==> #[trigger] deck@[i] == deck_card(i),
        decreases 4 - s,
    {
        let mut v: usize = 0;
        while v < 13
            invariant
                s < 4,
                v <= 13,
                deck@.len() == 13 * s + v,
                forall|k: int| 0 <= k < 4 ==> suites@[k] == suite_at(k),
                forall|k: int| 0 <= k < 13 ==> values@[k] == value_at(k),
                forall|i: int| 0 <= i < deck@.len() ==> #[trigger] deck@[i] == deck_card(i),
            decreases 13 - v,
        {
            let ghost i = deck@.len() as int;
            assert(i % 13 == v as int && i / 13 == s as int) by (nonlinear_arith)
                requires
                    i == 13 * s + v,
                    v < 13,
            ;
            deck.push(Card::new(values[v], suites[s]));
            v = v + 1;
        }
        s = s + 1;
    }
    assert(deck@ =~= full_deck());
    deck
}

} // verus!
