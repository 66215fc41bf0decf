//! Aggregate rankings of candidates from ranked ballots, under a pluggable
//! voting rule.
//!
//! A [`Poll`] is a collection of ballots; each ballot is a [`Ranking`], an
//! ordered list of [`Candidate`]s from most to least preferred (possibly
//! empty, to signal abstention). A voting rule — a [`VotingSystem`] — turns a
//! poll into either a total ranking of all candidates or a tie signal. The
//! one rule provided is [`PluralityVoting`], which ranks candidates by the
//! number of ballots that place them first.

use vstd::prelude::*;

pub mod plurality;

pub use plurality::PluralityVoting;

verus! {

/// Newtype for candidates. For convenience, the candidates are assumed to be
/// numbered contiguously starting at 0.
#[derive(Debug, PartialEq, Eq, Structural)]
pub struct Candidate(pub usize);

/// Type for rankings, especially ballots.
pub type Ranking = Vec<Candidate>;

/// A poll is a collection of ballots.
pub struct Poll(pub Vec<Ranking>);

/// Error for a poll whose ballots name no candidate at all: its candidate
/// universe is undefined, so no election can be run over it.
#[derive(Debug, PartialEq, Eq, Structural)]
pub struct EmptyPoll;

/// The mathematical value of a list of ballots: each ballot as a sequence of
/// candidates.
pub open spec fn ballots_of(bs: Seq<Ranking>) -> Seq<Seq<Candidate>> {
    bs.map_values(|b: Ranking| b@)
}

impl View for Poll {
    type V = Seq<Seq<Candidate>>;

    open spec fn view(&self) -> Seq<Seq<Candidate>> {
        ballots_of(self.0@)
    }
}

/// The largest candidate index on one ballot, or -1 for an empty ballot.
pub open spec fn ballot_max(b: Seq<Candidate>) -> int
    decreases b.len(),
{
    if b.len() == 0 {
        -1
    } else {
        let rest = ballot_max(b.drop_last());
        if b.last().0 > rest {
            b.last().0 as int
        } else {
            rest
        }
    }
}

/// The largest candidate index anywhere in the poll, or -1 when no ballot
/// names a candidate.
pub open spec fn poll_max(ballots: Seq<Seq<Candidate>>) -> int
    decreases ballots.len(),
{
    if ballots.len() == 0 {
        -1
    } else {
        let rest = poll_max(ballots.drop_last());
        if ballot_max(ballots.last()) > rest {
            ballot_max(ballots.last())
        } else {
            rest
        }
    }
}

/// The size of the poll's candidate universe: one more than the largest
/// candidate index appearing in any ballot. Meaningful only when some ballot
/// is non-empty.
pub open spec fn spec_ncandidates(ballots: Seq<Seq<Candidate>>) -> int {
    poll_max(ballots) + 1
}

/// At least one ballot expresses a preference.
pub open spec fn has_votes(ballots: Seq<Seq<Candidate>>) -> bool {
    exists|i: int| 0 <= i < ballots.len() && #[trigger] ballots[i].len() > 0
}

/// Every candidate index leaves room for the one-past-the-maximum count to be
/// represented as a `usize`.
pub open spec fn candidates_bounded(ballots: Seq<Seq<Candidate>>) -> bool {
    forall|i: int, j: int|
        0 <= i < ballots.len() && 0 <= j < ballots[i].len() ==> (#[trigger] ballots[i][j]).0
            < usize::MAX
}

/// Candidate `c` appears somewhere in the ranking.
pub open spec fn ranking_contains(r: Seq<Candidate>, c: int) -> bool {
    exists|p: int| 0 <= p < r.len() && (#[trigger] r[p]).0 == c
}

/// `r` is a total ranking over a universe of `n` candidates: it lists each of
/// the candidate indices `0..n` exactly once.
pub open spec fn is_total_ranking(r: Seq<Candidate>, n: int) -> bool {
    &&& r.len() == n
    &&& forall|p: int| 0 <= p < r.len() ==> (#[trigger] r[p]).0 < n
    &&& forall|p: int, q: int| 0 <= p < q < r.len() ==> r[p].0 != r[q].0
    &&& forall|c: int| 0 <= c < n ==> #[trigger] ranking_contains(r, c)
}

/// The mathematical value of an election outcome: the ranking's sequence of
/// candidates, or `None` for the tie signal.
pub open spec fn outcome_view(outcome: Option<Ranking>) -> Option<Seq<Candidate>> {
    match outcome {
        Some(rk) => Some(rk@),
        None => None,
    }
}

/// A voting system is defined by its election function.
pub trait VotingSystem {
    /// What this rule promises of an outcome it returns: which polls yield a
    /// tie signal (`None`), and which ranking a decided poll yields.
    spec fn rule_outcome(ballots: Seq<Seq<Candidate>>, outcome: Option<Seq<Candidate>>) -> bool;

    /// Run an election. Returns `Ok(Some(ranking))` with a total ranking of
    /// all candidates, `Ok(None)` in case of an irresolvable tie, or
    /// `Err(EmptyPoll)` when no ballot names any candidate.
    fn election(poll: Poll) -> (r: Result<Option<Ranking>, EmptyPoll>)
        requires
            candidates_bounded(poll@),
        ensures
            (r is Ok) <==> has_votes(poll@),
            r matches Ok(out) ==> Self::rule_outcome(poll@, outcome_view(out)),
            r matches Ok(Some(rk)) ==> is_total_ranking(rk@, spec_ncandidates(poll@)),
    ;
}

/// Every candidate index on every ballot lies below `ballot_max` + 1, and the
/// maximum is attained on some non-empty ballot.
pub proof fn lemma_ballot_max_bounds(b: Seq<Candidate>)
    ensures
        forall|j: int| 0 <= j < b.len() ==> (#[trigger] b[j]).0 <= ballot_max(b),
        b.len() > 0 ==> exists|j: int| 0 <= j < b.len() && (#[trigger] b[j]).0 == ballot_max(b),
        b.len() == 0 ==> ballot_max(b) == -1,
    decreases b.len(),
{
    if b.len() > 0 {
        lemma_ballot_max_bounds(b.drop_last());
        assert forall|j: int| 0 <= j < b.len() implies (#[trigger] b[j]).0 <= ballot_max(b) by {
            if j < b.len() - 1 {
                assert(b.drop_last()[j].0 <= ballot_max(b.drop_last()));
            }
        }
        if !(b.last().0 > ballot_max(b.drop_last())) {
            let w = choose|j: int|
                0 <= j < b.drop_last().len() && (#[trigger] b.drop_last()[j]).0 == ballot_max(
                    b.drop_last(),
                );
            assert(b[w].0 == ballot_max(b));
        } else {
            assert(b[b.len() - 1].0 == ballot_max(b));
        }
    }
}

/// `poll_max` bounds every candidate index in the poll, is attained somewhere
/// when the poll has votes, and is -1 exactly when it has none.
pub proof fn lemma_poll_max_bounds(ballots: Seq<Seq<Candidate>>)
    ensures
        forall|i: int, j: int|
            0 <= i < ballots.len() && 0 <= j < ballots[i].len() ==> (#[trigger] ballots[i][j]).0
                <= poll_max(ballots),
        has_votes(ballots) <==> poll_max(ballots) >= 0,
        !has_votes(ballots) ==> poll_max(ballots) == -1,
        has_votes(ballots) ==> exists|i: int, j: int|
            0 <= i < ballots.len() && 0 <= j < ballots[i].len() && (#[trigger] ballots[i][j]).0
                == poll_max(ballots),
    decreases ballots.len(),
{
    if ballots.len() > 0 {
        let prefix = ballots.drop_last();
        let last = ballots.last();
        lemma_poll_max_bounds(prefix);
        lemma_ballot_max_bounds(last);
        assert forall|i: int, j: int|
            0 <= i < ballots.len() && 0 <= j < ballots[i].len() implies (#[trigger] ballots[i][j]).0
            <= poll_max(ballots) by {
            if i < ballots.len() - 1 {
                assert(prefix[i][j].0 <= poll_max(prefix));
            } else {
                assert(last[j].0 <= ballot_max(last));
            }
        }
        if has_votes(ballots) {
            if last.len() > 0 {
                assert(ballot_max(last) >= last[0].0 >= 0);
                assert(poll_max(ballots) >= 0);
            } else {
                let i = choose|i: int| 0 <= i < ballots.len() && #[trigger] ballots[i].len() > 0;
                assert(prefix[i].len() > 0);
                assert(has_votes(prefix));
            }
        }
        if !has_votes(ballots) {
            assert(ballots[ballots.len() - 1].len() == 0);
            if has_votes(prefix) {
                let i = choose|i: int| 0 <= i < prefix.len() && #[trigger] prefix[i].len() > 0;
                assert(ballots[i].len() > 0);
                assert(false);
            }
        }
        if poll_max(ballots) >= 0 {
            if ballot_max(last) > poll_max(prefix) {
                let j = choose|j: int| 0 <= j < last.len() && (#[trigger] last[j]).0 == ballot_max(
                    last,
                );
                assert(ballots[ballots.len() - 1].len() > 0);
                assert(has_votes(ballots));
                assert(ballots[ballots.len() - 1][j].0 == poll_max(ballots));
            } else {
                assert(poll_max(prefix) == poll_max(ballots) >= 0);
                let (i, j) = choose|i: int, j: int|
                    0 <= i < prefix.len() && 0 <= j < prefix[i].len() && (#[trigger] prefix[i][j]).0
                        == poll_max(prefix);
                assert(ballots[i].len() > 0);
                assert(has_votes(ballots));
                assert(ballots[i][j].0 == poll_max(ballots));
            }
        }
    }
}

/// Whether a poll has votes does not depend on the order of its ballots.
proof fn lemma_has_votes_permutation(b1: Seq<Seq<Candidate>>, b2: Seq<Seq<Candidate>>)
    requires
        b1.to_multiset() == b2.to_multiset(),
        has_votes(b1),
    ensures
        has_votes(b2),
{
    broadcast use vstd::seq_lib::group_to_multiset_ensures;

    let i = choose|i: int| 0 <= i < b1.len() && #[trigger] b1[i].len() > 0;
    assert(b1.contains(b1[i]));
    assert(b2.to_multiset().count(b1[i]) > 0);
    assert(b2.contains(b1[i]));
    let k = choose|k: int| 0 <= k < b2.len() && b2[k] == b1[i];
    assert(b2[k].len() > 0);
}

/// One direction of `lemma_poll_max_permutation`: the maximum attained in
/// `b1` is also present in `b2`.
proof fn lemma_poll_max_le_permutation(b1: Seq<Seq<Candidate>>, b2: Seq<Seq<Candidate>>)
    requires
        b1.to_multiset() == b2.to_multiset(),
        has_votes(b1),
    ensures
        poll_max(b1) <= poll_max(b2),
{
    broadcast use vstd::seq_lib::group_to_multiset_ensures;

    lemma_poll_max_bounds(b1);
    lemma_poll_max_bounds(b2);
    let (wi, wj) = choose|wi: int, wj: int|
        0 <= wi < b1.len() && 0 <= wj < b1[wi].len() && (#[trigger] b1[wi][wj]).0 == poll_max(b1);
    assert(b1.contains(b1[wi]));
    assert(b2.to_multiset().count(b1[wi]) > 0);
    assert(b2.contains(b1[wi]));
    let k = choose|k: int| 0 <= k < b2.len() && b2[k] == b1[wi];
    assert(b2[k][wj].0 == poll_max(b1));
    assert(b2[k][wj].0 <= poll_max(b2));
}

/// The candidate universe does not depend on the order in which the ballots
/// are stored: permuting a poll leaves its maximum candidate index unchanged.
pub proof fn lemma_poll_max_permutation(b1: Seq<Seq<Candidate>>, b2: Seq<Seq<Candidate>>)
    requires
        b1.to_multiset() == b2.to_multiset(),
    ensures
        poll_max(b1) == poll_max(b2),
        has_votes(b1) == has_votes(b2),
{
    lemma_poll_max_bounds(b1);
    lemma_poll_max_bounds(b2);
    if has_votes(b1) {
        lemma_has_votes_permutation(b1, b2);
        lemma_poll_max_le_permutation(b1, b2);
        lemma_poll_max_le_permutation(b2, b1);
    } else if has_votes(b2) {
        lemma_has_votes_permutation(b2, b1);
    }
}

impl Poll {
    /// Find the number of candidates implicitly in the poll. Specifically,
    /// return one more than the highest candidate number found, or
    /// `EmptyPoll` when no ballot names any candidate.
    pub fn ncandidates(&self) -> (r: Result<usize, EmptyPoll>)
        requires
            candidates_bounded(self@),
        ensures
            (r is Ok) <==> has_votes(self@),
            r matches Ok(n) ==> n == spec_ncandidates(self@),
    {
        let ballots = &self.0;
        let mut best: usize = 0;
        let mut found: bool = false;
        let mut i: usize = 0;
        proof {
            assert(self@.take(0) =~= Seq::<Seq<Candidate>>::empty());
        }
        while i < ballots.len()
            invariant
                0 <= i <= ballots.len(),
                self@ == ballots_of(ballots@),
                candidates_bounded(self@),
                found ==> best == poll_max(self@.take(i as int)) && best < usize::MAX,
                !found ==> poll_max(self@.take(i as int)) == -1,
            decreases ballots.len() - i,
        {
            let b = &ballots[i];
            let ghost bv = self@[i as int];
            let mut j: usize = 0;
            proof {
                assert(bv.take(0) =~= Seq::<Candidate>::empty());
            }
            while j < b.len()
                invariant
                    0 <= j <= b.len(),
                    bv == b@,
                    0 <= i < ballots.len(),
                    self@ == ballots_of(ballots@),
                    candidates_bounded(self@),
                    bv == self@[i as int],
                    found ==> best as int == if ballot_max(bv.take(j as int)) > poll_max(
                        self@.take(i as int),
                    ) {
                        ballot_max(bv.take(j as int))
                    } else {
                        poll_max(self@.take(i as int))
                    },
                    found ==> best < usize::MAX,
                    !found ==> poll_max(self@.take(i as int)) == -1 && ballot_max(bv.take(j as int))
                        == -1,
                decreases b.len() - j,
            {
                let c = b[j].0;
                proof {
                    assert(self@[i as int][j as int].0 < usize::MAX);
                    assert(bv.take(j + 1).drop_last() =~= bv.take(j as int));
                    assert(bv.take(j + 1).last() == bv[j as int]);
                }
                if !found || c > best {
                    best = c;
                    found = true;
                }
                j += 1;
            }
            proof {
                assert(bv.take(b@.len() as int) =~= bv);
                assert(self@.take(i + 1).drop_last() =~= self@.take(i as int));
                assert(self@.take(i + 1).last() == self@[i as int]);
            }
            i += 1;
        }
        proof {
            assert(self@.take(self@.len() as int) =~= self@);
            lemma_poll_max_bounds(self@);
        }
        if found {
            Ok(best + 1)
        } else {
            Err(EmptyPoll)
        }
    }
}

} // verus!
