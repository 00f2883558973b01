//! Snowball: a voter that settles on one value from repeated rounds of
//! sampled votes.
//!
//! A round is a sequence of votes. The value that occurs most often in it
//! leads the round; if several values occur equally often, the one whose
//! first vote comes first leads. The round succeeds for its leader if the
//! leader has at least `quorum_size` votes. The voter is done once more than
//! `decision_threshold` rounds in a row have succeeded for the same value.

use vstd::prelude::*;
use vstd::laws_eq::obeys_concrete_eq;

verus! {

/// A voter as a mathematical value.
#[verifier::reject_recursive_types(T)]
pub struct SnowballView<T> {
    /// The current preference.
    pub value: Option<T>,
    /// Whether a stable decision has been reached.
    pub done: bool,
    /// The number of rounds in a row that succeeded for the preference.
    pub counter: nat,
    /// For each value, the number of rounds that succeeded for it.
    pub counters: Map<T, nat>,
    /// Number of queried peers (`k`).
    pub sample_size: u8,
    /// Number of votes that make a round succeed (`alpha`).
    pub quorum_size: u8,
    /// Number of successes in a row that a decision must exceed (`beta`).
    pub decision_threshold: u8,
}

/// One if the vote at `i` is for `value`, else nothing.
pub open spec fn vote_for<T>(votes: Seq<T>, value: T, i: int) -> nat {
    if 0 <= i < votes.len() && votes[i] == value {
        1
    } else {
        0
    }
}

/// The number of votes for `value` among the first `n` votes.
pub open spec fn occurrences_upto<T>(votes: Seq<T>, value: T, n: nat) -> nat
    decreases n,
{
    if n == 0 {
        0
    } else {
        occurrences_upto(votes, value, (n - 1) as nat) + vote_for(votes, value, n - 1)
    }
}

/// The number of votes for `value`.
pub open spec fn occurrences<T>(votes: Seq<T>, value: T) -> nat {
    occurrences_upto(votes, value, votes.len())
}

/// The vote at `at` is for the leader of the round: no value has more
/// votes, and every value voted for earlier has fewer.
pub open spec fn leads<T>(votes: Seq<T>, at: int) -> bool {
    &&& 0 <= at < votes.len()
    &&& forall|i: int|
        0 <= i < votes.len() ==> occurrences(votes, #[trigger] votes[i]) <= occurrences(
            votes,
            votes[at],
        )
    &&& forall|i: int|
        0 <= i < at ==> occurrences(votes, #[trigger] votes[i]) < occurrences(votes, votes[at])
}

/// The leader of a round that has votes.
pub open spec fn leader<T>(votes: Seq<T>) -> T {
    votes[choose|at: int| leads(votes, at)]
}

/// The value for which the round succeeds, if it succeeds.
pub open spec fn winner<T>(votes: Seq<T>, quorum_size: u8) -> Option<T> {
    if occurrences(votes, leader(votes)) >= quorum_size {
        Some(leader(votes))
    } else {
        None
    }
}

/// The votes for `value` at `i` and after it, two of them.
pub open spec fn count_2<T>(votes: Seq<T>, value: T, i: int) -> nat {
    vote_for(votes, value, i) + vote_for(votes, value, i + 1)
}

/// The votes for `value` at `i` and after it, four of them.
pub open spec fn count_4<T>(votes: Seq<T>, value: T, i: int) -> nat {
    count_2(votes, value, i) + count_2(votes, value, i + 2)
}

/// The votes for `value` at `i` and after it, eight of them.
pub open spec fn count_8<T>(votes: Seq<T>, value: T, i: int) -> nat {
    count_4(votes, value, i) + count_4(votes, value, i + 4)
}

/// Of two votes, the second if its value has more votes among the first
/// eight than that of the first, else the first.
pub open spec fn better<T>(votes: Seq<T>, a: int, b: int) -> int {
    if 0 <= b < votes.len() && count_8(votes, votes[b], 0) > count_8(votes, votes[a], 0) {
        b
    } else {
        a
    }
}

/// The better of the two votes from `i` on.
pub open spec fn lead_2<T>(votes: Seq<T>, i: int) -> int {
    better(votes, i, i + 1)
}

/// The best of the four votes from `i` on.
pub open spec fn lead_4<T>(votes: Seq<T>, i: int) -> int {
    better(votes, lead_2(votes, i), lead_2(votes, i + 2))
}

/// The best of the eight votes from `i` on.
pub open spec fn lead_8<T>(votes: Seq<T>, i: int) -> int {
    better(votes, lead_4(votes, i), lead_4(votes, i + 4))
}

/// The value for which a round of at most eight votes succeeds, if it
/// succeeds, written out vote by vote: what a given round comes to follows
/// from this without unfolding a recursion.
pub open spec fn short_winner<T>(votes: Seq<T>, quorum_size: u8) -> Option<T> {
    let at = lead_8(votes, 0);
    if count_8(votes, votes[at], 0) >= quorum_size {
        Some(votes[at])
    } else {
        None
    }
}

/// The vote at `at` leads the votes from `from` up to `to`, counted as
/// far as the first eight.
pub open spec fn leads_within<T>(votes: Seq<T>, at: int, from: int, to: int) -> bool {
    &&& from <= at < to
    &&& forall|i: int|
        from <= i < to ==> count_8(votes, #[trigger] votes[i], 0) <= count_8(votes, votes[at], 0)
    &&& forall|i: int|
        from <= i < at ==> count_8(votes, #[trigger] votes[i], 0) < count_8(votes, votes[at], 0)
}

/// The end of the `n` votes from `from` on, or of the round if that comes
/// first.
pub open spec fn end_of<T>(votes: Seq<T>, from: int, n: int) -> int {
    if from + n <= votes.len() {
        from + n
    } else {
        votes.len() as int
    }
}

impl<T> SnowballView<T> {
    /// The number of rounds that succeeded for `value`.
    pub open spec fn hits(self, value: T) -> nat {
        if self.counters.contains_key(value) {
            self.counters[value]
        } else {
            0
        }
    }

    /// What holds of every voter.
    pub open spec fn wf(self) -> bool {
        &&& self.done <==> self.counter > self.decision_threshold
        &&& self.counter <= self.decision_threshold + 1
        &&& self.counter > 0 ==> self.value is Some
        &&& self.value is None ==> self.counters == Map::<T, nat>::empty()
        &&& self.value matches Some(v) ==> self.counters.contains_key(v)
        &&& forall|w: T| #[trigger]
            self.counters.contains_key(w) ==> 1 <= self.counters[w] <= self.hits(
                self.value.unwrap(),
            )
    }

    /// The voter after a round that succeeded for `winner`, or for no value.
    pub open spec fn recorded(self, winner: Option<T>) -> SnowballView<T> {
        if self.done {
            self
        } else {
            match winner {
                Some(v) => {
                    let counters = self.counters.insert(v, self.hits(v) + 1);
                    let value = if self.value is None || counters[v] > counters[self.value.unwrap()] {
                        Some(v)
                    } else {
                        self.value
                    };
                    let counter = if self.value == Some(v) {
                        self.counter + 1
                    } else {
                        1
                    };
                    SnowballView {
                        value,
                        done: counter > self.decision_threshold,
                        counter,
                        counters,
                        ..self
                    }
                },
                None => SnowballView { done: false, counter: 0, ..self },
            }
        }
    }

    /// The voter after a round of votes. A voter that is done, and a round
    /// without votes, change nothing.
    pub open spec fn ticked(self, votes: Seq<T>) -> SnowballView<T> {
        if self.done || votes.len() == 0 {
            self
        } else {
            self.recorded(winner(votes, self.quorum_size))
        }
    }

    /// The voter after the rounds, first to last.
    pub open spec fn ticked_all(self, rounds: Seq<Seq<T>>) -> SnowballView<T>
        decreases rounds.len(),
    {
        if rounds.len() == 0 {
            self
        } else {
            self.ticked_all(rounds.drop_last()).ticked(rounds.last())
        }
    }
}

/// At most one vote is for the leader before any other vote for it.
pub proof fn lemma_leads_unique<T>(votes: Seq<T>, a: int, b: int)
    requires
        leads(votes, a),
        leads(votes, b),
    ensures
        a == b,
{
    let in_a = occurrences(votes, votes[a]);
    let in_b = occurrences(votes, votes[b]);
    if a < b {
        assert(in_a < in_b);
    } else if b < a {
        assert(in_b < in_a);
    }
}

/// Past the end of the round there is nothing more to count.
pub proof fn lemma_occurrences_beyond<T>(votes: Seq<T>, value: T, n: nat)
    requires
        n >= votes.len(),
    ensures
        occurrences_upto(votes, value, n) == occurrences(votes, value),
    decreases n,
{
    if n > votes.len() {
        lemma_occurrences_beyond(votes, value, (n - 1) as nat);
    }
}

/// In a round of at most eight votes, the votes written out one by one are
/// all the votes.
pub proof fn lemma_count_8<T>(votes: Seq<T>, value: T)
    requires
        votes.len() <= 8,
    ensures
        count_8(votes, value, 0) == occurrences(votes, value),
{
    reveal_with_fuel(occurrences_upto, 9);
    lemma_occurrences_beyond(votes, value, 8);
}

proof fn lemma_lead_2<T>(votes: Seq<T>, i: int)
    requires
        0 <= i < votes.len(),
    ensures
        leads_within(votes, lead_2(votes, i), i, end_of(votes, i, 2)),
{
}

proof fn lemma_lead_4<T>(votes: Seq<T>, i: int)
    requires
        0 <= i < votes.len(),
    ensures
        leads_within(votes, lead_4(votes, i), i, end_of(votes, i, 4)),
{
    lemma_lead_2(votes, i);
    if i + 2 < votes.len() {
        lemma_lead_2(votes, i + 2);
    }
}

proof fn lemma_lead_8<T>(votes: Seq<T>, i: int)
    requires
        0 <= i < votes.len(),
    ensures
        leads_within(votes, lead_8(votes, i), i, end_of(votes, i, 8)),
{
    lemma_lead_4(votes, i);
    if i + 4 < votes.len() {
        lemma_lead_4(votes, i + 4);
    }
}

/// In a round of one to eight votes, the leader and the winner written out
/// vote by vote are the leader and the winner.
pub proof fn lemma_short_winner<T>(votes: Seq<T>, quorum_size: u8)
    requires
        0 < votes.len() <= 8,
    ensures
        leads(votes, lead_8(votes, 0)),
        leader(votes) == votes[lead_8(votes, 0)],
        winner(votes, quorum_size) == short_winner(votes, quorum_size),
{
    lemma_lead_8(votes, 0);
    let at = lead_8(votes, 0);
    assert forall|i: int| 0 <= i < votes.len() implies count_8(votes, #[trigger] votes[i], 0)
        == occurrences(votes, votes[i]) by {
        lemma_count_8(votes, votes[i]);
    }
    assert(leads(votes, at));
    lemma_leads_unique(votes, at, choose|at: int| leads(votes, at));
}

/// A round keeps a voter well formed.
pub proof fn lemma_recorded_wf<T>(s: SnowballView<T>, winner: Option<T>)
    requires
        s.wf(),
    ensures
        s.recorded(winner).wf(),
{
    let r = s.recorded(winner);
    if !s.done {
        match winner {
            Some(v) => {
                assert forall|w: T| #[trigger] r.counters.contains_key(w) implies 1
                    <= r.counters[w] <= r.hits(r.value.unwrap()) by {
                    if w != v {
                        assert(s.counters.contains_key(w));
                    }
                }
            },
            None => {},
        }
    }
}

/// Once a voter is done, no round changes it.
pub proof fn lemma_done_is_final<T>(s: SnowballView<T>, rounds: Seq<Seq<T>>)
    requires
        s.done,
    ensures
        s.ticked_all(rounds) == s,
    decreases rounds.len(),
{
    if rounds.len() > 0 {
        lemma_done_is_final(s, rounds.drop_last());
    }
}

/// Rounds keep a voter well formed.
pub proof fn lemma_ticked_all_wf<T>(s: SnowballView<T>, rounds: Seq<Seq<T>>)
    requires
        s.wf(),
    ensures
        s.ticked_all(rounds).wf(),
    decreases rounds.len(),
{
    if rounds.len() > 0 {
        lemma_ticked_all_wf(s, rounds.drop_last());
        let before = s.ticked_all(rounds.drop_last());
        if !(before.done || rounds.last().len() == 0) {
            lemma_recorded_wf(before, winner(rounds.last(), before.quorum_size));
        }
    }
}

/// The mapping that values and their numbers of successful rounds, held
/// side by side, stand for.
pub open spec fn tally<T>(values: Seq<T>, hits: Seq<u64>) -> Map<T, nat> {
    Map::new(|v: T| values.contains(v), |v: T| hits[values.index_of(v)] as nat)
}

/// Where no value occurs twice, the mapping gives for each value the number
/// beside it.
proof fn lemma_tally_at<T>(values: Seq<T>, hits: Seq<u64>, i: int)
    requires
        values.no_duplicates(),
        0 <= i < values.len(),
    ensures
        tally(values, hits).contains_key(values[i]),
        tally(values, hits)[values[i]] == hits[i],
{
    assert(values.contains(values[i]));
}

/// Changing the number beside a value changes the mapping at that value.
proof fn lemma_tally_update<T>(values: Seq<T>, hits: Seq<u64>, i: int, n: u64)
    requires
        values.no_duplicates(),
        values.len() == hits.len(),
        0 <= i < values.len(),
    ensures
        tally(values, hits.update(i, n)) == tally(values, hits).insert(values[i], n as nat),
{
    let after = tally(values, hits.update(i, n));
    let expected = tally(values, hits).insert(values[i], n as nat);
    assert forall|v: T| #[trigger] expected.dom().contains(v) implies after.dom().contains(v)
        && after[v] == expected[v] by {
        if v != values[i] {
            let j = values.index_of(v);
            lemma_tally_at(values, hits, j);
            lemma_tally_at(values, hits.update(i, n), j);
        } else {
            lemma_tally_at(values, hits.update(i, n), i);
        }
    }
}

/// Putting a new value with its number at the end adds it to the mapping.
proof fn lemma_tally_push<T>(values: Seq<T>, hits: Seq<u64>, v: T, n: u64)
    requires
        values.no_duplicates(),
        values.len() == hits.len(),
        !values.contains(v),
    ensures
        values.push(v).no_duplicates(),
        tally(values.push(v), hits.push(n)) == tally(values, hits).insert(v, n as nat),
{
    let longer = values.push(v);
    assert forall|i: int, j: int| 0 <= i < longer.len() && 0 <= j < longer.len() && i
        != j implies longer[i] != longer[j] by {
        if i < values.len() {
            assert(values.contains(longer[i]));
        }
        if j < values.len() {
            assert(values.contains(longer[j]));
        }
    }
    let after = tally(longer, hits.push(n));
    let expected = tally(values, hits).insert(v, n as nat);
    assert forall|w: T| #[trigger] after.dom().contains(w) implies expected.dom().contains(w) by {
        let j = longer.index_of(w);
        if j < values.len() {
            assert(values[j] == w);
        }
    }
    assert forall|w: T| #[trigger] expected.dom().contains(w) implies after.dom().contains(w)
        && after[w] == expected[w] by {
        if w != v {
            let j = values.index_of(w);
            lemma_tally_at(values, hits, j);
            lemma_tally_at(longer, hits.push(n), j);
        } else {
            lemma_tally_at(longer, hits.push(n), values.len() as int);
        }
    }
}

/// Why a round was refused.
#[derive(Clone, Copy, Debug, PartialEq, Eq, Structural)]
pub enum SnowballError {
    /// The round held no vote.
    NoVotes,
}

/// Snowball algorithm from the family of Metastable Consensus Protocols.
#[derive(Debug)]
pub struct Snowball<T> {
    /// Where among `values` the current value stands.
    value: Option<usize>,
    /// Returns whether the algorithm converged.
    done: bool,
    /// Records the number of consecutive successes.
    counter: u64,
    /// The values for which a round has succeeded.
    values: Vec<T>,
    /// Beside each value, the number of rounds that succeeded for it.
    hits: Vec<u64>,
    /// Number or queried peers. Subset of all available peers.
    /// Referred to as `k` in the whitepaper.
    sample_size: u8,
    /// Number of votes required to consider a value to be *accepted*.
    /// Referred to as `alpha` in the whitepaper.
    quorum_size: u8,
    /// Number of consecutive votes required to consider a decision to be *stable*.
    /// Referred to as `beta` in the whitepaper.
    decision_threshold: u8,
}

impl<T> View for Snowball<T> {
    type V = SnowballView<T>;

    closed spec fn view(&self) -> SnowballView<T> {
        SnowballView {
            value: match self.value {
                Some(at) => Some(self.values@[at as int]),
                None => None,
            },
            done: self.done,
            counter: self.counter as nat,
            counters: tally(self.values@, self.hits@),
            sample_size: self.sample_size,
            quorum_size: self.quorum_size,
            decision_threshold: self.decision_threshold,
        }
    }
}

/// Whether two values are the same.
fn same<T: PartialEq>(a: &T, b: &T) -> (r: bool)
    requires
        obeys_concrete_eq::<T>(),
    ensures
        r == (*a == *b),
{
    proof {
        reveal(obeys_concrete_eq);
    }
    a.eq(b)
}

/// Counts the votes for `value`.
fn count_for<T: PartialEq>(votes: &Vec<T>, value: &T) -> (count: usize)
    requires
        obeys_concrete_eq::<T>(),
    ensures
        count == occurrences(votes@, *value),
{
    let mut count: usize = 0;
    let mut i: usize = 0;
    while i < votes.len()
        invariant
            i <= votes.len(),
            obeys_concrete_eq::<T>(),
            count <= i,
            count == occurrences_upto(votes@, *value, i as nat),
        decreases votes.len() - i,
    {
        if same(&votes[i], value) {
            count += 1;
        }
        i += 1;
    }
    count
}

impl<T: PartialEq> Snowball<T> {
    /// What the representation keeps: each value stands once, with its
    /// number beside it, and the current value is one of them.
    pub closed spec fn inv(&self) -> bool {
        &&& self.values@.len() == self.hits@.len()
        &&& self.values@.no_duplicates()
        &&& self.value matches Some(at) ==> at < self.values@.len()
    }

    /// What holds of every voter.
    pub open spec fn wf(&self) -> bool {
        self.inv() && self@.wf()
    }

    /// Creates a new Snowball.
    pub fn new(sample_size: u8, quorum_size: u8, decision_threshold: u8) -> (snowball: Self)
        ensures
            snowball.wf(),
            snowball@ == (SnowballView::<T> {
                value: None,
                done: false,
                counter: 0,
                counters: Map::empty(),
                sample_size,
                quorum_size,
                decision_threshold,
            }),
    {
        let snowball = Snowball {
            value: None,
            done: false,
            counter: 0,
            values: Vec::new(),
            hits: Vec::new(),
            sample_size,
            quorum_size,
            decision_threshold,
        };
        assert(snowball@.counters =~= Map::<T, nat>::empty());
        snowball
    }

    /// Run one round of the Snowball algorithm.
    pub fn tick(&mut self, votes: Vec<T>) -> (r: Result<(), SnowballError>)
        requires
            old(self).wf(),
            obeys_concrete_eq::<T>(),
            forall|i: int| 0 <= i < votes@.len() ==> old(self)@.hits(#[trigger] votes@[i]) < u64::MAX,
        ensures
            final(self).wf(),
            final(self)@ == old(self)@.ticked(votes@),
            r is Err <==> !old(self)@.done && votes@.len() == 0,
            old(self)@.done ==> final(self)@ == old(self)@,
            0 < votes@.len() <= 8 ==> final(self)@ == old(self)@.recorded(
                short_winner(votes@, old(self)@.quorum_size),
            ),
    {
        proof {
            if 0 < votes@.len() <= 8 {
                lemma_short_winner(votes@, self@.quorum_size);
            }
        }
        // Return if we already settled on a value.
        if self.done {
            return Ok(());
        }
        let quorum_size = self.quorum_size;
        match Snowball::count_votes(votes) {
            None => Err(SnowballError::NoVotes),
            Some((favorite, favorite_votes)) => {
                // Check if there's a quorum.
                if favorite_votes >= quorum_size as usize {
                    self.record_round(Some(favorite));
                } else {
                    // We haven't found a quorum so we reset the counter to 0.
                    self.record_round(None);
                }
                Ok(())
            },
        }
    }

    /// Finds the leader of the round and counts its votes; gives `None` for
    /// a round without votes.
    pub fn count_votes(votes: Vec<T>) -> (r: Option<(T, usize)>)
        requires
            obeys_concrete_eq::<T>(),
        ensures
            votes@.len() == 0 ==> r is None,
            votes@.len() > 0 ==> (r matches Some((value, count)) && value == leader(votes@) && count
                == occurrences(votes@, value) && votes@.contains(value)),
            0 < votes@.len() <= 8 ==> (r matches Some((value, count)) && value == votes@[lead_8(
                votes@,
                0,
            )] && count == count_8(votes@, value, 0)),
    {
        proof {
            if 0 < votes@.len() <= 8 {
                lemma_short_winner(votes@, 0);
                lemma_count_8(votes@, leader(votes@));
            }
        }
        if votes.len() == 0 {
            return None;
        }
        let mut best: usize = 0;
        let mut best_count: usize = count_for(&votes, &votes[0]);
        let mut i: usize = 1;
        while i < votes.len()
            invariant
                1 <= i <= votes.len(),
                obeys_concrete_eq::<T>(),
                best < i,
                best_count == occurrences(votes@, votes@[best as int]),
                forall|j: int|
                    0 <= j < i ==> occurrences(votes@, #[trigger] votes@[j]) <= best_count,
                forall|j: int|
                    0 <= j < best ==> occurrences(votes@, #[trigger] votes@[j]) < best_count,
            decreases votes.len() - i,
        {
            let count = count_for(&votes, &votes[i]);
            if count > best_count {
                best = i;
                best_count = count;
            }
            i += 1;
        }
        proof {
            lemma_leads_unique(votes@, best as int, choose|at: int| leads(votes@, at));
        }
        let mut votes = votes;
        let favorite = votes.swap_remove(best);
        Some((favorite, best_count))
    }

    /// Takes the outcome of one round into account: the value for which the
    /// round succeeded, or `None` if it succeeded for no value.
    pub fn record_round(&mut self, winner: Option<T>)
        requires
            old(self).wf(),
            obeys_concrete_eq::<T>(),
            winner matches Some(v) ==> old(self)@.hits(v) < u64::MAX,
        ensures
            final(self).wf(),
            final(self)@ == old(self)@.recorded(winner),
    {
        proof {
            lemma_recorded_wf(self@, winner);
        }
        if self.done {
            return;
        }
        match winner {
            Some(favorite) => {
                let found = self.position(&favorite);
                // Increment the favorites counter.
                let at = match found {
                    Some(at) => {
                        proof {
                            lemma_tally_at(self.values@, self.hits@, at as int);
                            lemma_tally_update(
                                self.values@,
                                self.hits@,
                                at as int,
                                (self.hits@[at as int] + 1) as u64,
                            );
                        }
                        let more = self.hits[at] + 1;
                        self.hits[at] = more;
                        at
                    },
                    None => {
                        proof {
                            lemma_tally_push(self.values@, self.hits@, favorite, 1);
                        }
                        self.values.push(favorite);
                        self.hits.push(1);
                        self.values.len() - 1
                    },
                };
                proof {
                    lemma_tally_at(self.values@, self.hits@, at as int);
                }
                // Increment the counter if we've seen the favorite before.
                let again = match self.value {
                    Some(current) => current == at,
                    None => false,
                };
                // Set the current value to the favorite if its counter is higher.
                let higher = match self.value {
                    Some(current) => {
                        proof {
                            lemma_tally_at(self.values@, self.hits@, current as int);
                        }
                        self.hits[at] > self.hits[current]
                    },
                    None => true,
                };
                if higher {
                    self.value = Some(at);
                }
                if again {
                    self.counter += 1;
                } else {
                    self.counter = 1;
                }
            },
            None => {
                // We haven't found a quorum so we reset the counter to 0.
                self.counter = 0;
            },
        }
        // We consider the Snowball algorithm done if we've seen the favorite enough
        // times in a row.
        if self.counter > self.decision_threshold as u64 {
            self.done = true;
        }
    }

    /// Where among the values `value` stands, if a round has succeeded for
    /// it.
    fn position(&self, value: &T) -> (found: Option<usize>)
        requires
            obeys_concrete_eq::<T>(),
        ensures
            found matches Some(at) ==> at < self.values@.len() && self.values@[at as int] == *value,
            found is None ==> !self.values@.contains(*value),
    {
        let mut i: usize = 0;
        while i < self.values.len()
            invariant
                i <= self.values.len(),
                obeys_concrete_eq::<T>(),
                forall|j: int| 0 <= j < i ==> self.values@[j] != *value,
            decreases self.values.len() - i,
        {
            if same(&self.values[i], value) {
                return Some(i);
            }
            i += 1;
        }
        None
    }

    /// The current value.
    pub fn value(&self) -> (value: Option<&T>)
        requires
            self.wf(),
        ensures
            match value {
                Some(v) => self@.value == Some(*v),
                None => self@.value is None,
            },
    {
        match self.value {
            Some(at) => Some(&self.values[at]),
            None => None,
        }
    }

    /// Whether the algorithm converged.
    pub fn done(&self) -> (done: bool)
        ensures
            done == self@.done,
    {
        self.done
    }

    /// The number of consecutive successes.
    pub fn counter(&self) -> (counter: u64)
        ensures
            counter == self@.counter,
    {
        self.counter
    }

    /// The number of rounds that have succeeded for `value`.
    pub fn hits(&self, value: &T) -> (hits: u64)
        requires
            self.wf(),
            obeys_concrete_eq::<T>(),
        ensures
            hits == self@.hits(*value),
    {
        match self.position(value) {
            Some(at) => {
                proof {
                    lemma_tally_at(self.values@, self.hits@, at as int);
                }
                self.hits[at]
            },
            None => 0,
        }
    }

    /// Number of queried peers.
    pub fn sample_size(&self) -> (k: u8)
        ensures
            k == self@.sample_size,
    {
        self.sample_size
    }

    /// Number of votes required to consider a value to be accepted.
    pub fn quorum_size(&self) -> (alpha: u8)
        ensures
            alpha == self@.quorum_size,
    {
        self.quorum_size
    }

    /// Number of consecutive successes that a stable decision must exceed.
    pub fn decision_threshold(&self) -> (beta: u8)
        ensures
            beta == self@.decision_threshold,
    {
        self.decision_threshold
    }
}

} // verus!
