use vstd::prelude::*;

verus! {

/// Outcome of one round, seen from the active player.
#[derive(Clone, Copy, Debug, PartialEq, Eq, Structural)]
pub enum Round {
    Loss,
    War,
    Victory,
}

/// A run of consecutive rounds with the same outcome.
#[derive(Debug, PartialEq, Eq, Structural)]
pub struct Streak {
    typ: Round,
    length: usize,
}

impl View for Streak {
    type V = (Round, nat);

    closed spec fn view(&self) -> (Round, nat) {
        (self.typ, self.length as nat)
    }
}

/// The outcome sequence that a list of runs stands for.
pub open spec fn expand(runs: Seq<(Round, nat)>) -> Seq<Round>
    decreases runs.len(),
{
    if runs.len() == 0 {
        Seq::empty()
    } else {
        let last = runs.last();
        expand(runs.drop_last()) + Seq::new(last.1, |_k: int| last.0)
    }
}

/// `runs` is the run-length encoding of `rounds`: the runs spell out `rounds`,
/// none is empty, and two neighbouring runs never share an outcome.
pub open spec fn is_run_encoding(runs: Seq<(Round, nat)>, rounds: Seq<Round>) -> bool {
    &&& expand(runs) == rounds
    &&& forall|i: int| 0 <= i < runs.len() ==> #[trigger] runs[i].1 > 0
    &&& forall|i: int| 0 < i < runs.len() ==> #[trigger] runs[i - 1].0 != runs[i].0
}

/// The abstract contents of a list of streaks.
pub open spec fn runs_of(streaks: Seq<Streak>) -> Seq<(Round, nat)> {
    streaks.map_values(|s: Streak| s@)
}

/// How many times `kind` occurs in `rounds`.
pub open spec fn count_of(rounds: Seq<Round>, kind: Round) -> nat
    decreases rounds.len(),
{
    if rounds.len() == 0 {
        0
    } else {
        count_of(rounds.drop_last(), kind) + if rounds.last() == kind {
            1nat
        } else {
            0nat
        }
    }
}

/// The greatest length among the runs of kind `kind`, or 0 where there is none.
pub open spec fn longest_of(runs: Seq<(Round, nat)>, kind: Round) -> nat
    decreases runs.len(),
{
    if runs.len() == 0 {
        0
    } else {
        let rest = longest_of(runs.drop_last(), kind);
        let last = runs.last();
        if last.0 == kind && last.1 > rest {
            last.1
        } else {
            rest
        }
    }
}

proof fn lemma_expand_len(runs: Seq<(Round, nat)>)
    requires
        runs.len() > 0,
    ensures
        expand(runs).len() >= runs.last().1,
{
}

/// The last run of an encoding covers a block of equal outcomes at the end of the
/// sequence, and the outcome just before that block differs.
proof fn lemma_last_run(runs: Seq<(Round, nat)>, rounds: Seq<Round>)
    requires
        is_run_encoding(runs, rounds),
        runs.len() > 0,
    ensures
        ({
            let (t, n) = runs.last();
            &&& n <= rounds.len()
            &&& expand(runs.drop_last()) == rounds.subrange(0, rounds.len() - n)
            &&& is_run_encoding(runs.drop_last(), rounds.subrange(0, rounds.len() - n))
            &&& forall|j: int| rounds.len() - n <= j < rounds.len() ==> rounds[j] == t
            &&& rounds.len() - n > 0 ==> rounds[rounds.len() - n - 1] != t
        }),
{
    let (t, n) = runs.last();
    let prefix = expand(runs.drop_last());
    assert(rounds =~= prefix + Seq::new(n, |_k: int| t));
    assert(prefix =~= rounds.subrange(0, rounds.len() - n));
    let rest = runs.drop_last();
    assert forall|i: int| 0 <= i < rest.len() implies #[trigger] rest[i].1 > 0 by {
        assert(rest[i] == runs[i]);
    }
    assert forall|i: int| 0 < i < rest.len() implies #[trigger] rest[i - 1].0 != rest[i].0 by {
        assert(rest[i] == runs[i] && rest[i - 1] == runs[i - 1]);
    }
    if prefix.len() > 0 {
        assert(rest.len() > 0);
        let (u, m) = rest.last();
        assert(runs[runs.len() - 2] == rest.last());
        assert(m > 0);
        assert(prefix == expand(rest.drop_last()) + Seq::new(m, |_k: int| u));
        assert(prefix.last() == u);
    }
}

/// A sequence of outcomes has exactly one run-length encoding.
pub proof fn lemma_run_encoding_unique(a: Seq<(Round, nat)>, b: Seq<(Round, nat)>, rounds: Seq<
    Round,
>)
    requires
        is_run_encoding(a, rounds),
        is_run_encoding(b, rounds),
    ensures
        a == b,
    decreases rounds.len(),
{
    if a.len() == 0 || b.len() == 0 {
        if a.len() > 0 {
            assert(a[a.len() - 1].1 > 0);
            lemma_last_run(a, rounds);
        }
        if b.len() > 0 {
            assert(b[b.len() - 1].1 > 0);
            lemma_last_run(b, rounds);
        }
        assert(a =~= b);
    } else {
        assert(a[a.len() - 1].1 > 0);
        assert(b[b.len() - 1].1 > 0);
        lemma_last_run(a, rounds);
        lemma_last_run(b, rounds);
        let (t1, n1) = a.last();
        let (t2, n2) = b.last();
        assert(rounds[rounds.len() - 1] == t1);
        assert(rounds[rounds.len() - 1] == t2);
        if n1 < n2 {
            assert(rounds[rounds.len() - n1 - 1] == t2);
        }
        if n2 < n1 {
            assert(rounds[rounds.len() - n2 - 1] == t1);
        }
        lemma_run_encoding_unique(a.drop_last(), b.drop_last(), rounds.subrange(0, rounds.len() - n1));
        assert(a =~= a.drop_last().push(a.last()));
        assert(b =~= b.drop_last().push(b.last()));
    }
}

impl Streak {
    pub fn typ(&self) -> (r: Round)
        ensures
            r == self@.0,
    {
        self.typ
    }

    pub fn length(&self) -> (r: usize)
        ensures
            r as nat == self@.1,
    {
        self.length
    }

    /// Splits `rounds` into its maximal runs of equal outcomes, in order.
    pub fn from_rounds(rounds: &[Round]) -> (r: Vec<Self>)
        ensures
            is_run_encoding(runs_of(r@), rounds@),
    {
        let mut streaks: Vec<Self> = Vec::new();
        let mut i: usize = 0;
        assert(runs_of(streaks@) =~= Seq::empty());
        assert(rounds@.subrange(0, 0) =~= Seq::empty());
        while i < rounds.len()
            invariant
                i <= rounds@.len(),
                is_run_encoding(runs_of(streaks@), rounds@.subrange(0, i as int)),
            decreases rounds@.len() - i,
        {
            let round = rounds[i];
            let ghost old_runs = runs_of(streaks@);
            let n = streaks.len();
            if n > 0 && streaks[n - 1].typ == round {
                let len = streaks[n - 1].length;
                proof {
                    lemma_expand_len(old_runs);
                }
                streaks.set(n - 1, Streak { typ: round, length: len + 1 });
                proof {
                    let new_runs = runs_of(streaks@);
                    let t = round;
                    assert(new_runs =~= old_runs.update(n - 1, (t, (len + 1) as nat)));
                    assert(new_runs.drop_last() =~= old_runs.drop_last());
                    assert(Seq::new((len + 1) as nat, |_k: int| t) =~= Seq::new(
                        len as nat,
                        |_k: int| t,
                    ).push(t));
                    assert(rounds@.subrange(0, i + 1) =~= rounds@.subrange(0, i as int).push(t));
                    assert(expand(new_runs) =~= expand(old_runs).push(t));
                }
            } else {
                streaks.push(Streak::from(&round));
                proof {
                    let new_runs = runs_of(streaks@);
                    let t = round;
                    assert(new_runs =~= old_runs.push((t, 1nat)));
                    assert(new_runs.drop_last() =~= old_runs);
                    assert(Seq::new(1nat, |_k: int| t) =~= seq![t]);
                    assert(rounds@.subrange(0, i + 1) =~= rounds@.subrange(0, i as int).push(t));
                    assert(expand(new_runs) =~= expand(old_runs).push(t));
                }
            }
            i = i + 1;
        }
        assert(rounds@.subrange(0, rounds@.len() as int) =~= rounds@);
        streaks
    }
}

/// Longest run of `kind` among `streaks`, or 0 where none has that kind.
pub fn longest_streak(streaks: &[Streak], kind: Round) -> (r: usize)
    ensures
        r as nat == longest_of(runs_of(streaks@), kind),
{
    let mut best: usize = 0;
    let mut i: usize = 0;
    while i < streaks.len()
        invariant
            i <= streaks@.len(),
            best as nat == longest_of(runs_of(streaks@.subrange(0, i as int)), kind),
        decreases streaks@.len() - i,
    {
        proof {
            assert(runs_of(streaks@.subrange(0, i + 1)).drop_last() =~= runs_of(
                streaks@.subrange(0, i as int),
            ));
        }
        if streaks[i].typ == kind && streaks[i].length > best {
            best = streaks[i].length;
        }
        i = i + 1;
    }
    assert(streaks@.subrange(0, streaks@.len() as int) =~= streaks@);
    best
}

/// How many of `rounds` have outcome `kind`.
pub fn count_rounds(rounds: &[Round], kind: Round) -> (r: usize)
    ensures
        r as nat == count_of(rounds@, kind),
{
    let mut n: usize = 0;
    let mut i: usize = 0;
    while i < rounds.len()
        invariant
            i <= rounds@.len(),
            n <= i,
            n as nat == count_of(rounds@.subrange(0, i as int), kind),
        decreases rounds@.len() - i,
    {
        proof {
            assert(rounds@.subrange(0, i + 1).drop_last() =~= rounds@.subrange(0, i as int));
        }
        if rounds[i] == kind {
            n = n + 1;
        }
        i = i + 1;
    }
    assert(rounds@.subrange(0, rounds@.len() as int) =~= rounds@);
    n
}

/// Every round is a victory, a loss or a war: the three counts add up to the
/// number of rounds.
pub proof fn lemma_counts_cover_rounds(rounds: Seq<Round>)
    ensures
        count_of(rounds, Round::Victory) + count_of(rounds, Round::Loss) + count_of(
            rounds,
            Round::War,
        ) == rounds.len(),
    decreases rounds.len(),
{
    if rounds.len() > 0 {
        lemma_counts_cover_rounds(rounds.drop_last());
    }
}

impl PartialOrd for Streak {
    /// Streaks of different kinds are incomparable; those of one kind compare by length.
    fn partial_cmp(&self, rhs: &Streak) -> (r: Option<std::cmp::Ordering>) {
        if self.typ != rhs.typ {
            return None;
        }
        if self.length < rhs.length {
            Some(std::cmp::Ordering::Less)
        } else if self.length > rhs.length {
            Some(std::cmp::Ordering::Greater)
        } else {
            Some(std::cmp::Ordering::Equal)
        }
    }
}

impl vstd::std_specs::cmp::PartialOrdSpecImpl for Streak {
    open spec fn obeys_partial_cmp_spec() -> bool {
        true
    }

    open spec fn partial_cmp_spec(&self, rhs: &Streak) -> Option<std::cmp::Ordering> {
        if self@.0 != rhs@.0 {
            None
        } else if self@.1 < rhs@.1 {
            Some(std::cmp::Ordering::Less)
        } else if self@.1 > rhs@.1 {
            Some(std::cmp::Ordering::Greater)
        } else {
            Some(std::cmp::Ordering::Equal)
        }
    }
}

impl From<&Streak> for Round {
    fn from(streak: &Streak) -> (r: Self) {
        streak.typ
    }
}

impl vstd::std_specs::convert::FromSpecImpl<&Streak> for Round {
    open spec fn obeys_from_spec() -> bool {
        true
    }

    open spec fn from_spec(streak: &Streak) -> Round {
        streak@.0
    }
}

/// A streak made from one round has that round's kind and length 1.
pub proof fn lemma_streak_from_round(round: Round)
    ensures
        <Streak as vstd::std_specs::convert::FromSpec<&Round>>::obeys_from_spec(),
        <Streak as vstd::std_specs::convert::FromSpec<&Round>>::from_spec(&round)@ == (round, 1nat),
{
}

impl From<&Round> for Streak {
    fn from(round: &Round) -> (r: Self) {
        Self { typ: *round, length: 1 }
    }
}

impl vstd::std_specs::convert::FromSpecImpl<&Round> for Streak {
    open spec fn obeys_from_spec() -> bool {
        true
    }

    closed spec fn from_spec(round: &Round) -> Self {
        Streak { typ: *round, length: 1 }
    }
}

} // verus!
